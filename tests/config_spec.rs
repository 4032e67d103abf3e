use dag::config_spec::{parse_config_spec_to_path, ConfigSpecError};

#[test]
fn prefixed_path() {
    assert_eq!(parse_config_spec_to_path("configerator:scm/mononoke"), Ok("scm/mononoke".to_string()));
}

#[test]
fn bare_path() {
    assert_eq!(parse_config_spec_to_path("scm/mononoke"), Ok("scm/mononoke".to_string()));
    assert_eq!(parse_config_spec_to_path(""), Ok("".to_string()));
    assert_eq!(parse_config_spec_to_path("configerator"), Ok("configerator".to_string()));
}

#[test]
fn empty_path_after_prefix() {
    assert_eq!(parse_config_spec_to_path("configerator:"), Ok("".to_string()));
}

#[test]
fn invalid_specs() {
    for spec in ["file:a", ":", "configerator:a:b", "a:b:c", "configerator::"] {
        assert_eq!(parse_config_spec_to_path(spec), Err(ConfigSpecError::InvalidSpec));
    }
}
