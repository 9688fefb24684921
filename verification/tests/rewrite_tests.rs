use domain_changer::parse_string;
use domain_changer::extract_old_domains;
use domain_changer::types::config::Config;
use domain_changer::types::domain::Domain;

#[test]
fn parse_string_test() {
    let config: Config = Config::default();

    assert_eq!(parse_string(&config, String::new()), String::new());
    assert_eq!(
        parse_string(&config, "Hello, world".to_owned()),
        "Hello, world".to_owned()
    );
    assert_eq!(
        parse_string(&config, "Hello https://randomdooomain.com".to_owned()),
        "Hello https://randomdooomain.com".to_owned()
    );
    assert_eq!(
        parse_string(&config, "hi, youtube.com/something".to_owned()),
        "hi, https://piped.kavin.rocks/something".to_owned()
    );
    assert_eq!(
        parse_string(&config, "hi, youtube.com".to_owned()),
        "hi, https://piped.kavin.rocks/".to_owned()
    )
}

#[test]
fn parse_string_multi_token() {
    let config: Config = Config::default();
    let text: String = "Wellcome to my youtube channel: https://www.youtube.com/channel/UCeRbJsc8cl7xBwT3jIxaAdg And my twitter is: twitter.com/Awiteb".to_string();
    assert_eq!(
        parse_string(&config, text),
        "Wellcome to my youtube channel: https://piped.kavin.rocks/channel/UCeRbJsc8cl7xBwT3jIxaAdg And my twitter is: https://nitter.net/Awiteb".to_string()
    );
}

#[test]
fn parse_string_collapses_whitespace() {
    let config: Config = Config::default();
    assert_eq!(
        parse_string(&config, "a\t b\n\nc   d".to_owned()),
        "a b c d".to_owned()
    );
}

#[test]
fn parse_string_new_hosts_unchanged() {
    let config: Config = Config::default();
    let text = "see https://piped.kavin.rocks/abc and https://nitter.net/xyz".to_owned();
    assert_eq!(parse_string(&config, text.clone()), text);
}

#[test]
fn parse_string_punctuation_glued_token_passes_through() {
    let config: Config = Config::default();
    assert_eq!(
        parse_string(&config, "(youtube.com)".to_owned()),
        "(youtube.com)".to_owned()
    );
}

#[test]
fn extract_old_domains_test() {
    let config: Config = Config::default();
    let text: String =
        String::from("Hi i hate youtube.com and https://twitter.com what about you?");
    let youtube = Domain::try_from("https://youtube.com/", "https://piped.kavin.rocks/").unwrap();
    let twitter = Domain::try_from("https://twitter.com/", "https://nitter.net/").unwrap();
    assert_eq!(extract_old_domains(&config, text), vec![&youtube, &twitter]);

    let empty_vec: Vec<&Domain> = Vec::new();
    assert_eq!(
        extract_old_domains(&config, String::from("Hello, World!")),
        empty_vec
    );
}

#[test]
fn default_config_has_six_entries() {
    let config: Config = Config::default();
    assert_eq!(config.domains.len(), 6);
    assert_eq!(config.domains[0].old.host, "youtube.com");
    assert_eq!(config.domains[0].new.host, "piped.kavin.rocks");
    assert_eq!(config.domains[5].old.host, "reddit.com");
    assert_eq!(config.domains[5].new.host, "libredd.it");
}
