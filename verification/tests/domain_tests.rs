use domain_changer::types::config::Config;
use domain_changer::types::domain::Domain;
use domain_changer::types::errors::DomainChangerResult;
use domain_changer::types::urls::UrlRecord;

#[test]
fn domain_tryfrom_test() {
    let domain: DomainChangerResult<Domain> =
        Domain::try_from("twitter.com", "https://nitter.net");
    assert!(domain.err().unwrap().is_invalid_old_domain());

    let domain: DomainChangerResult<Domain> =
        Domain::try_from("https://twitter.com", "nitter.net");
    assert!(domain.err().unwrap().is_invalid_new_domain());
}

#[test]
fn domain_tryfrom_keeps_parsed_urls() {
    let foo: Domain = Domain::try_from("https://youtube.com", "https://piped.kavin.rocks")
        .unwrap();
    assert_eq!(foo.old.host, "youtube.com");
    assert_eq!(foo.new.host, "piped.kavin.rocks");
    assert_eq!(foo.old.text, "https://youtube.com/");
    assert_eq!(foo.new.text, "https://piped.kavin.rocks/");
}

#[test]
fn domain_tryfrom_rejects_hostless_urls() {
    let domain = Domain::try_from("mailto:someone@example.com", "https://nitter.net");
    assert!(domain.err().unwrap().is_invalid_old_domain());
}

#[test]
fn error_messages_name_the_input() {
    let err = Domain::try_from("not a url", "https://nitter.net").unwrap_err();
    assert!(err.is_invalid_old_domain());
    assert_eq!(err.message(), "'not a url', is invalid old domain");
    let err = Domain::try_from("https://nitter.net", "junk").unwrap_err();
    assert!(err.is_invalid_new_domain());
    assert_eq!(err.message(), "'junk', is invalid new domain");
}

#[test]
fn url_record_parse_normalizes() {
    let rec = UrlRecord::parse("https://youtube.com").unwrap();
    assert_eq!(rec.text, "https://youtube.com/");
    assert_eq!(rec.host, "youtube.com");
    assert!(UrlRecord::parse("youtube.com").is_none());
}

#[test]
fn domain_new_pairs_records() {
    let foo: Domain = Domain::new(
        UrlRecord::parse("https://youtube.com").unwrap(),
        UrlRecord::parse("https://piped.kavin.rocks").unwrap(),
    );
    assert_eq!(foo.new.host, "piped.kavin.rocks");
    assert_eq!(foo.old.host, "youtube.com");
}

#[test]
fn domain_contain_checks_hosts() {
    let domain: Domain = Domain::new(
        UrlRecord::parse("https://youtube.com").unwrap(),
        UrlRecord::parse("https://piped.kavin.rocks").unwrap(),
    );
    assert!(domain.contain("youtube.com", true).is_some());
    assert!(domain.contain("piped.kavin.rocks", true).is_none());
    assert!(domain.contain("piped.kavin.rocks", false).is_some());
    assert!(domain.contain("not a url at all", true).is_none());
}

#[test]
fn domain_contain_keeps_scheme_and_path() {
    let domain: Domain = Domain::new(
        UrlRecord::parse("https://youtube.com").unwrap(),
        UrlRecord::parse("https://piped.kavin.rocks").unwrap(),
    );
    let parsed = domain.contain("http://youtube.com/watch?v=abc#t=1", true).unwrap();
    assert_eq!(parsed.text, "http://youtube.com/watch?v=abc#t=1");
    assert_eq!(parsed.host.as_deref(), Some("youtube.com"));
    let bare = domain.contain("youtube.com/watch", true).unwrap();
    assert_eq!(bare.text, "https://youtube.com/watch");
}

#[test]
fn config_contain_finds_first_entry() {
    let config: Config = Config::default();
    assert!(config.contain("google.com", true).is_none());
    assert!(config.contain("youtube.com", true).is_some());
    assert!(config.contain("https://libredd.it", false).is_some());
    assert!(config.contain("https://libredd.it", true).is_none());
}

#[test]
fn config_hosts_and_lookup() {
    let my_config = Config::new(vec![
        Domain::try_from("https://youtube.com/", "https://piped.kavin.rocks/").unwrap(),
        Domain::try_from("https://twitter.com/", "https://nitter.net/").unwrap(),
        Domain::try_from("https://reddit.com/", "https://libredd.it/").unwrap(),
    ]);
    assert_eq!(my_config.domains.len(), 3);
    assert_eq!(my_config.domains[1].new.text, "https://nitter.net/");
    assert_eq!(
        my_config.old_hosts(),
        vec!["youtube.com", "twitter.com", "reddit.com"]
    );
    assert_eq!(
        my_config.new_hosts(),
        vec!["piped.kavin.rocks", "nitter.net", "libredd.it"]
    );
    assert_eq!(
        my_config.get_by_old("youtube.com"),
        Some(&my_config.domains[0])
    );
    assert_eq!(my_config.get_by_old("youtube"), None);
}
