use blazingly::cancellation::CancellationToken;
use blazingly::config::{
    check_max_length, check_min_length, raw_value, read, read_as_parsed, read_optional,
    ConfigDuration, ConfigEntry, ConfigError, ConfigPath, ConfigProblem, ConfigSource,
    FromConfigValue, Layered, MapSource, Positive, SettingDescriptor, Settings, ValueError,
};

struct Limits {
    port: u16,
    name: Option<String>,
}

impl Settings for Limits {
    fn load(source: &dyn ConfigSource) -> Result<Limits, ConfigError> {
        let mut errors = ConfigError::new();
        let port = read::<u16>(source, "PORT", Some("8080"), &mut errors);
        let name = read_optional::<String>(source, "NAME", &mut errors);
        errors.into_result(Limits {
            port: port.unwrap_or(0),
            name,
        })
    }

    fn variables() -> Vec<SettingDescriptor> {
        Vec::new()
    }
}

#[test]
fn settings_fall_back_to_their_defaults() {
    let limits = Limits::load(&MapSource::new()).expect("defaults");
    assert_eq!(limits.port, 8080);
    assert_eq!(limits.name, None);

    let given = MapSource::new().with("PORT", " 9000 ").with("NAME", "edge");
    let limits = Limits::load(&given).expect("given values");
    assert_eq!(limits.port, 9000);
    assert_eq!(limits.name.as_deref(), Some("edge"));
    assert!(Limits::variables().is_empty());
}

#[test]
fn every_problem_is_reported_at_once() {
    let source = MapSource::new().with("PORT", "70000").with("KEY", "abc");
    let mut errors = ConfigError::new();
    assert_eq!(read::<u16>(&source, "PORT", None, &mut errors), None);
    assert_eq!(read::<u64>(&source, "LIMIT", None, &mut errors), None);
    let key = read::<String>(&source, "KEY", None, &mut errors).expect("a set value");
    check_min_length(&key, 8, "KEY", &mut errors);
    check_max_length(&key, 2, "KEY", &mut errors);

    assert_eq!(errors.missing(), ["LIMIT"]);
    assert_eq!(errors.problems().len(), 4);
    assert_eq!(
        errors.to_string(),
        "4 setting(s) could not be read:\n  \
         - PORT is `70000`, which is not a valid 16-bit unsigned integer\n  \
         - LIMIT is not set and has no default\n  \
         - KEY is `abc`, which is shorter than the required 8 characters\n  \
         - KEY is `abc`, which is longer than the permitted 2 characters\n"
    );
    let failed: Result<(), ConfigError> = errors.into_result(());
    assert!(failed.is_err());
    assert_eq!(
        ConfigProblem::Missing.to_string(),
        "is not set and has no default"
    );
}

#[test]
fn an_earlier_layer_wins() {
    let environment = MapSource::from_entries(vec![
        ConfigEntry {
            key: "A".to_string(),
            value: "first".to_string(),
        },
        ConfigEntry {
            key: "A".to_string(),
            value: "last".to_string(),
        },
    ]);
    let defaults = MapSource::new().with("A", "default").with("B", "fallback");
    let layered = Layered::new().under(&environment).under(&defaults);
    assert_eq!(layered.get("A").as_deref(), Some("last"));
    assert_eq!(layered.get("B").as_deref(), Some("fallback"));
    assert_eq!(layered.get("C"), None);
}

#[test]
fn values_are_read_as_configuration_spells_them() {
    assert_eq!(bool::from_config_value(" YES "), Ok(true));
    assert_eq!(bool::from_config_value("off"), Ok(false));
    assert_eq!(bool::from_config_value("maybe"), Err(ValueError));
    assert_eq!(i8::from_config_value("-128"), Ok(-128));
    assert_eq!(i8::from_config_value("-129"), Err(ValueError));
    assert_eq!(u64::from_config_value("+18446744073709551615"), Ok(u64::MAX));
    assert_eq!(u64::from_config_value("18446744073709551616"), Err(ValueError));
    assert_eq!(u32::from_config_value(""), Err(ValueError));
    assert_eq!(i128::from_config_value("-7"), Ok(-7));
    assert_eq!(char::from_config_value("x"), Ok('x'));
    assert_eq!(char::from_config_value("xy"), Err(ValueError));
    assert_eq!(
        ConfigDuration::from_config_value("5m"),
        Ok(ConfigDuration {
            milliseconds: 300_000
        })
    );
    assert_eq!(
        ConfigDuration::from_config_value("100ms"),
        Ok(ConfigDuration { milliseconds: 100 })
    );
    assert_eq!(
        ConfigDuration::from_config_value("2"),
        Ok(ConfigDuration {
            milliseconds: 2_000
        })
    );
    assert_eq!(
        ConfigDuration::from_config_value("18446744073709551615h"),
        Err(ValueError)
    );
    assert_eq!(Vec::<u8>::from_config_value("1, 2,3"), Ok(vec![1, 2, 3]));
    assert_eq!(Vec::<u8>::from_config_value("1,x"), Err(ValueError));
    assert_eq!(
        ValueError.to_string(),
        "the value is not of the expected type"
    );
}

#[test]
fn cancelling_wakes_what_waits_once() {
    let mut token = CancellationToken::new();
    assert!(!token.cancelled("first", false));
    assert!(!token.cancelled("first", true));
    assert!(!token.cancelled("second", false));
    assert_eq!(token.waiting(), ["first", "second"]);
    assert_eq!(token.cancel(), ["first", "second"]);
    assert!(token.is_cancelled());
    assert!(token.cancel().is_empty());
    assert!(token.cancelled("third", false));
    assert!(token.waiting().is_empty());
}

#[test]
fn numbers_above_zero_and_paths_are_read() {
    assert_eq!(
        Positive::<u16>::from_config_value(" +8 ").ok(),
        Some(Positive { value: 8 })
    );
    assert!(Positive::<u16>::from_config_value("0").is_err());
    assert!(Positive::<u16>::from_config_value("65536").is_err());
    assert!(Positive::<u32>::from_config_value("-1").is_err());
    assert_eq!(
        Positive::<u64>::from_config_value("18446744073709551615").ok(),
        Some(Positive { value: u64::MAX })
    );
    assert_eq!(Positive::<usize>::expected(), "positive integer");
    assert_eq!(Positive::<u32>::expected(), "positive 32-bit integer");
    let path = ConfigPath::from_config_value(" /etc/app ").expect("every text is a path");
    assert_eq!(path.text, "/etc/app");
}

#[test]
fn a_value_that_reads_itself_is_judged_alike() {
    let mut errors = ConfigError::new();
    let raw = raw_value(None, Some("1.5"));
    let parsed = raw.as_deref().and_then(|raw| raw.parse::<f64>().ok());
    assert_eq!(read_as_parsed(raw, parsed, "RATIO", "number", &mut errors), Some(1.5));
    assert!(errors.is_empty());

    let raw = raw_value(Some("fast".to_string()), Some("1.5"));
    let parsed = raw.as_deref().and_then(|raw| raw.parse::<f64>().ok());
    assert_eq!(read_as_parsed(raw, parsed, "RATIO", "number", &mut errors), None);
    assert_eq!(
        read_as_parsed::<f64>(raw_value(None, None), None, "SPEED", "number", &mut errors),
        None
    );
    assert_eq!(
        errors.problems(),
        [
            (
                "RATIO".to_string(),
                ConfigProblem::Unparsable {
                    value: "fast".to_string(),
                    expected: "number",
                }
            ),
            ("SPEED".to_string(), ConfigProblem::Missing),
        ]
    );
}
