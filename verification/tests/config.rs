use dinglebit_config::time::{DateTime, Duration};
use dinglebit_config::{Config, Environment, Error, MultiConfig, Simple};

fn sample() -> Simple {
    let text = "foo = bar\nint = 100\nbool = t\nduration = 50\ndatetime = 2015-05-15T05:05:05+00:00\nlist = [1, 2, 3]\nmap = {a=>1, b=>2, c=>3}";
    Simple::from_str(text).unwrap()
}

#[test]
fn new() {
    assert_eq!(
        Environment::new("test"),
        Environment {
            prefix: "test_".to_string()
        }
    );
    assert_eq!(
        Environment::new(""),
        Environment {
            prefix: "".to_string()
        }
    );
}

#[test]
fn lookup_key_with_prefix() {
    let e = Environment::new("test_get");
    assert_eq!(e.lookup_key("foo.bar"), "TEST_GET_FOO_BAR".to_string());
    assert_eq!(e.lookup_key("foo/bar"), "TEST_GET_FOO_BAR".to_string());
}

#[test]
fn lookup_key_without_prefix() {
    let e = Environment::new("");
    assert_eq!(e.lookup_key("my.app.secret"), "MY_APP_SECRET".to_string());
    assert_eq!(e.lookup_key("plain"), "PLAIN".to_string());
}

#[test]
fn test_parse_line() {
    let tests: Vec<(&str, Result<Option<(String, String)>, Error>)> = vec![
        ("     # comment   ", Ok(None)),
        ("  test", Err(Error::InvalidKeyValuePair)),
        (
            "  foo    =    bar    ",
            Ok(Some(("foo".to_string(), "bar".to_string()))),
        ),
    ];
    for (k, v) in tests.iter() {
        assert_eq!(dinglebit_config::simple::parse_line(k), *v);
    }
}

#[test]
fn multi() {
    let m1 = Simple::from_str("foo = bar\nbar = baz").unwrap();
    let m2 = Simple::from_str("foo = buz\nbuz = foo").unwrap();

    let mc = MultiConfig::new(vec![m2, m1]);

    assert_eq!(mc.get("foo"), Some("buz".to_string()));
    assert_eq!(mc.get("bar"), Some("baz".to_string()));
    assert_eq!(mc.get("buz"), Some("foo".to_string()));
}

#[test]
fn chain_precedence() {
    let a = Simple::from_str("x = 1").unwrap();
    let b = Simple::from_str("x = 2\ny = 3").unwrap();
    let chain = MultiConfig::new(vec![a, b]);
    assert_eq!(chain.get("x"), Some("1".to_string()));
    assert_eq!(chain.get("y"), Some("3".to_string()));
    assert_eq!(chain.get("z"), None);
}

#[test]
fn get_string() {
    assert_eq!(sample().string("foo"), "bar".to_string());
    assert_eq!(sample().must_get("foo"), "bar".to_string());
    assert_eq!(sample().get("missing"), None);
}

#[test]
fn get_int64() {
    assert_eq!(sample().int64("int"), 100);
    let cfg = Simple::from_str("a = -42\nb = +7\nc = 9223372036854775807").unwrap();
    assert_eq!(cfg.int64("a"), -42);
    assert_eq!(cfg.int64("b"), 7);
    assert_eq!(cfg.int64("c"), i64::MAX);
}

#[test]
fn get_bool() {
    assert!(sample().bool("bool"));
    let cfg = Simple::from_str(
        "a = t\nb = TRUE\nc = 1\nd = Y\ne = yes\nf = 0\ng = no\nh = maybe\ni = tru",
    )
    .unwrap();
    assert!(cfg.bool("a"));
    assert!(cfg.bool("b"));
    assert!(cfg.bool("c"));
    assert!(cfg.bool("d"));
    assert!(cfg.bool("e"));
    assert!(!cfg.bool("f"));
    assert!(!cfg.bool("g"));
    assert!(!cfg.bool("h"));
    assert!(!cfg.bool("i"));
}

#[test]
fn get_duration() {
    assert_eq!(sample().duration("duration"), Duration::seconds(50));
    assert_eq!(sample().duration("duration").secs, 50);
}

#[test]
fn get_datetime() {
    assert_eq!(
        sample().datetime("datetime"),
        DateTime {
            secs: 1431666305,
            nanos: 0
        }
    );
    // an offset is normalized away: one hour east is one hour earlier in UTC
    let cfg = Simple::from_str("t = 2015-05-15T05:05:05+01:00").unwrap();
    assert_eq!(
        cfg.datetime("t"),
        DateTime {
            secs: 1431662705,
            nanos: 0
        }
    );
    assert_eq!(cfg.try_datetime("t").unwrap().secs, 1431662705);
    let bad = Simple::from_str("t = not-a-date").unwrap();
    assert_eq!(bad.try_datetime("t"), None);
    assert_eq!(bad.try_datetime("missing"), None);
}

#[test]
fn get_list() {
    assert_eq!(
        sample().list("list"),
        vec!["1".to_string(), "2".to_string(), "3".to_string()]
    );
}

#[test]
fn list_brackets_optional() {
    let cfg = Simple::from_str("a = 1,2,3\nb = [1, 2, 3]").unwrap();
    let expected = vec!["1".to_string(), "2".to_string(), "3".to_string()];
    assert_eq!(cfg.list("a"), expected);
    assert_eq!(cfg.list("b"), expected);
}

#[test]
fn list_empty_value_yields_one_empty_element() {
    let cfg = Simple::from_str("a =").unwrap();
    assert_eq!(cfg.list("a"), vec!["".to_string()]);
}

#[test]
fn get_map() {
    let m = sample().map("map");
    assert_eq!(m.len(), 3);
    assert!(m.contains(&("a".to_string(), "1".to_string())));
    assert!(m.contains(&("b".to_string(), "2".to_string())));
    assert!(m.contains(&("c".to_string(), "3".to_string())));
}

#[test]
fn map_entry_without_arrow_has_empty_value() {
    let cfg = Simple::from_str("m = {a=>1, b}").unwrap();
    let m = cfg.map("m");
    assert_eq!(m.len(), 2);
    assert!(m.contains(&("a".to_string(), "1".to_string())));
    assert!(m.contains(&("b".to_string(), "".to_string())));
}

#[test]
fn map_duplicate_key_last_wins() {
    let cfg = Simple::from_str("m = {a=>1, a=>2}").unwrap();
    let m = cfg.map("m");
    assert_eq!(m.len(), 1);
    assert!(m.contains(&("a".to_string(), "2".to_string())));
}

#[test]
fn simple_duplicate_key_last_wins() {
    let cfg = Simple::from_str("a = 1\nb = 2\na = 3").unwrap();
    assert_eq!(cfg.get("a"), Some("3".to_string()));
    assert_eq!(cfg.get("b"), Some("2".to_string()));
}

#[test]
fn simple_malformed_line_is_an_error() {
    assert_eq!(
        Simple::from_str("a = 1\njust-a-word"),
        Err(Error::InvalidKeyValuePair)
    );
}

#[test]
fn simple_comments_and_blanks_are_skipped() {
    let cfg = Simple::from_str("# header\n\n   \nfoo = bar\n  # tail").unwrap();
    assert_eq!(cfg.get("foo"), Some("bar".to_string()));
    assert_eq!(cfg.get("# header"), None);
}

#[test]
fn chain_of_chains() {
    let inner = MultiConfig::new(vec![
        Simple::from_str("a = 1").unwrap(),
        Simple::from_str("b = 2").unwrap(),
    ]);
    let outer = MultiConfig::new(vec![inner]);
    assert_eq!(outer.get("a"), Some("1".to_string()));
    assert_eq!(outer.get("b"), Some("2".to_string()));
    assert_eq!(outer.get("c"), None);
}

#[test]
fn empty_chain_holds_nothing() {
    let chain = MultiConfig::new(Vec::<Simple>::new());
    assert_eq!(chain.get("anything"), None);
}

#[test]
fn from_pairs_in_memory() {
    let cfg = Simple::from_pairs(vec![
        ("weird key".to_string(), "a=b\n#c".to_string()),
        ("x".to_string(), "1".to_string()),
        ("x".to_string(), "2".to_string()),
    ]);
    assert_eq!(cfg.get("weird key"), Some("a=b\n#c".to_string()));
    assert_eq!(cfg.get("x"), Some("2".to_string()));
    assert_eq!(cfg.get("y"), None);
}

#[test]
fn from_pairs_as_defaults_in_a_chain() {
    let defaults = Simple::from_pairs(vec![("foo".to_string(), "bar".to_string())]);
    let overrides = Simple::from_str("baz=foo").unwrap();
    let cfg = MultiConfig::new(vec![overrides, defaults]);
    assert_eq!(cfg.must_get("foo"), "bar".to_string());
    assert_eq!(cfg.must_get("baz"), "foo".to_string());
    assert!(cfg.get("bar").is_none());
}
