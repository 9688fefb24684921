use domain_changer::types::config::Config;
use domain_changer::types::domain::Domain;
use domain_changer::types::traits::{JsonError, ToFromJson};

#[test]
fn domain_to_json() {
    let domain: Domain = Domain::try_from("https://twitter.com/", "https://nitter.net/").unwrap();
    assert_eq!(
        domain.to_json(),
        "{\"old\":\"https://twitter.com/\",\"new\":\"https://nitter.net/\"}"
    );
    assert_eq!(
        Domain::from_json("{\"old\":\"https://twitter.com/\",\"new\":\"https://nitter.net/\"}")
            .unwrap(),
        domain
    );
    assert!(Domain::from_json("{\"old\":\"twitter.com/\",\"new\":\"nitter.net/\"}").is_err());
}

#[test]
fn config_to_json() {
    let config: Config = Config::new(vec![Domain::try_from(
        "https://twitter.com/",
        "https://nitter.net/",
    )
    .unwrap()]);
    assert_eq!(
        config.to_json(),
        "{\"domains\":[{\"old\":\"https://twitter.com/\",\"new\":\"https://nitter.net/\"}]}"
            .to_string()
    );
    assert_eq!(
        Config::from_json(
            "{\"domains\":[{\"old\":\"https://twitter.com/\",\"new\":\"https://nitter.net/\"}]}"
        )
        .unwrap(),
        config
    );
}

#[test]
fn config_json_round_trip_default() {
    let config: Config = Config::default();
    let json = config.to_json();
    assert_eq!(Config::from_json(json.as_str()).unwrap(), config);
}

#[test]
fn empty_config_json_round_trip() {
    let config: Config = Config::new(Vec::new());
    let json = config.to_json();
    assert_eq!(json, "{\"domains\":[]}");
    assert_eq!(Config::from_json(json.as_str()).unwrap(), config);
}

#[test]
fn json_round_trip_with_escaped_characters() {
    // A backslash survives in a URL query, so the JSON string must escape it.
    let domain: Domain =
        Domain::try_from("https://example.com/?q=a\\b", "https://nitter.net/").unwrap();
    let json = domain.to_json();
    assert!(json.contains("\\\\"));
    assert_eq!(Domain::from_json(json.as_str()).unwrap(), domain);
}

#[test]
fn from_json_accepts_whitespace() {
    let domain = Domain::from_json(
        "{ \"old\" : \"https://twitter.com/\" , \"new\" : \"https://nitter.net/\" }",
    )
    .unwrap();
    assert_eq!(domain.old.host, "twitter.com");
    let config = Config::from_json(
        "{ \"domains\" : [ { \"old\" : \"https://t.co/\" , \"new\" : \"https://nitter.net/\" } ] }",
    )
    .unwrap();
    assert_eq!(config.domains.len(), 1);
}

#[test]
fn from_json_rejects_malformed_text() {
    assert!(matches!(Domain::from_json("not json"), Err(JsonError::Syntax)));
    assert!(matches!(Domain::from_json("{\"old\":\"https://a.com/\"}"), Err(JsonError::Syntax)));
    assert!(matches!(Config::from_json("{\"domains\":"), Err(JsonError::Syntax)));
    assert!(matches!(
        Config::from_json("{\"domains\":[]} trailing"),
        Err(JsonError::Syntax)
    ));
}

#[test]
fn from_json_rejects_invalid_domains() {
    match Domain::from_json("{\"old\":\"junk\",\"new\":\"https://nitter.net/\"}") {
        Err(JsonError::Invalid(e)) => assert!(e.is_invalid_old_domain()),
        _ => panic!("expected an invalid-domain error"),
    }
    match Config::from_json("{\"domains\":[{\"old\":\"https://t.co/\",\"new\":\"junk\"}]}") {
        Err(JsonError::Invalid(e)) => assert!(e.is_invalid_new_domain()),
        _ => panic!("expected an invalid-domain error"),
    }
}
