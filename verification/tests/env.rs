use site_startup::address::BindAddress;
use site_startup::env::get_bind_address;
use site_startup::env::get_log_lev;
use site_startup::env::VarError;
use site_startup::error::StartupError;

#[test]
fn log_level_defaults_to_info() {
    assert_eq!(get_log_lev(Err(VarError::NotPresent)), "info");
    assert_eq!(get_log_lev(Err(VarError::NotUnicode("\"\\xFF\"".to_string()))), "info");
}

#[test]
fn log_level_is_handed_on_as_read() {
    assert_eq!(get_log_lev(Ok("debug".to_string())), "debug");
    assert_eq!(get_log_lev(Ok("my_crate=trace,warn".to_string())), "my_crate=trace,warn");
    assert_eq!(get_log_lev(Ok("".to_string())), "");
    assert_eq!(get_log_lev(Ok("no such level".to_string())), "no such level");
}

#[test]
fn bind_address_defaults_to_loopback_3000() {
    let expected = BindAddress::V4 { octets: [127, 0, 0, 1], port: 3000 };
    assert_eq!(get_bind_address(Err(VarError::NotPresent)), Ok(expected));
    assert_eq!(get_bind_address(Err(VarError::NotUnicode("\"\\xFF\"".to_string()))), Ok(expected));
}

#[test]
fn bind_address_is_read_from_the_value() {
    assert_eq!(
        get_bind_address(Ok("0.0.0.0:8080".to_string())),
        Ok(BindAddress::V4 { octets: [0, 0, 0, 0], port: 8080 })
    );
    assert_eq!(
        get_bind_address(Ok("[::1]:3000".to_string())),
        Ok(BindAddress::V6 { segments: [0, 0, 0, 0, 0, 0, 0, 1], port: 3000, scope_id: 0 })
    );
}

#[test]
fn bind_address_failure_quotes_the_text() {
    let result = get_bind_address(Ok("not-an-address".to_string()));
    match result {
        Err(StartupError::Configuration(message)) => {
            assert!(message.contains("not-an-address"));
            assert_eq!(
                message,
                "Failed to parse LEPTOS_SITE_ADDR 'not-an-address': invalid socket address syntax"
            );
        }
        other => panic!("unexpected result: {:?}", other),
    }
}

#[test]
fn bind_address_failure_on_empty_value() {
    assert_eq!(
        get_bind_address(Ok("".to_string())),
        Err(StartupError::Configuration(
            "Failed to parse LEPTOS_SITE_ADDR '': invalid socket address syntax".to_string()
        ))
    );
}

#[test]
fn var_error_messages() {
    assert_eq!(VarError::NotPresent.message(), "environment variable not found");
    assert_eq!(
        VarError::NotUnicode("\"\\xFF\"".to_string()).message(),
        "environment variable was not valid unicode: \"\\xFF\""
    );
}
