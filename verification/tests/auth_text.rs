use cost_ledger::auth::{check_permission, AuthUser, User};
use cost_ledger::error::AppError;
use cost_ledger::model::Date;
use cost_ledger::text::{dedup_strings, i128_to_string, i64_to_string};

fn sample_user(name: &str, discriminator: &str) -> AuthUser {
    AuthUser {
        id: "7".to_string(),
        avatar: None,
        username: name.to_string(),
        discriminator: discriminator.to_string(),
    }
}

#[test]
fn account_name_joins_username_and_discriminator() {
    let user = sample_user("eckon", "5962");
    assert_eq!(user.account_name(), "eckon#5962");

    let session_user = User {
        id: "9".to_string(),
        avatar: Some("a".to_string()),
        username: "Hanawa".to_string(),
        discriminator: "5326".to_string(),
    };
    assert_eq!(session_user.account_name(), "Hanawa#5326");
}

#[test]
fn permission_is_granted_only_to_listed_accounts() {
    let allowed = vec!["eckon#5962".to_string(), "Hanawa#5326".to_string()];
    assert!(check_permission(&sample_user("eckon", "5962"), &allowed).is_ok());
    let rejected = check_permission(&sample_user("someone", "0001"), &allowed);
    assert!(matches!(rejected, Err(AppError::Forbidden)));
}

#[test]
fn integers_render_in_decimal() {
    assert_eq!(i64_to_string(0), "0");
    assert_eq!(i64_to_string(412), "412");
    assert_eq!(i64_to_string(-89), "-89");
    assert_eq!(i64_to_string(i64::MIN), "-9223372036854775808");
    assert_eq!(i128_to_string(20_769_187_434_139_310_514_121_985_316_880_384), "20769187434139310514121985316880384");
}

#[test]
fn error_messages_match_their_kind() {
    assert_eq!(AppError::NotFound.message(), "not found");
    assert_eq!(AppError::Forbidden.message(), "no permission");
    assert_eq!(AppError::Service("boom".to_string()).message(), "boom");
}

#[test]
fn dedup_keeps_first_occurrences() {
    let tags = vec!["a".to_string(), "b".to_string(), "a".to_string(), "c".to_string()];
    let unique = dedup_strings(&tags);
    assert_eq!(unique, vec!["a".to_string(), "b".to_string(), "c".to_string()]);
}

#[test]
fn dates_order_chronologically() {
    let earlier = Date { year: 2020, month: 12, day: 31 };
    let later = Date { year: 2021, month: 1, day: 1 };
    assert!(earlier.le(&later));
    assert!(!later.le(&earlier));
    assert!(earlier.le(&earlier));
}

#[test]
fn api_config_parses_address_and_port() {
    assert_eq!(
        cost_ledger::config::parse_api_config("127.0.0.1:3000"),
        Some(([127, 0, 0, 1], 3000))
    );
    assert_eq!(
        cost_ledger::config::parse_api_config("0.0.0.0:80"),
        Some(([0, 0, 0, 0], 80))
    );
    // leading zeros are accepted, like the standard number parser
    assert_eq!(
        cost_ledger::config::parse_api_config("001.002.003.004:00080"),
        Some(([1, 2, 3, 4], 80))
    );
}

#[test]
fn api_config_rejects_malformed_addresses() {
    for bad in [
        "",
        "127.0.0.1",
        "127.0.0.1:",
        ".0.0.1:80",
        "127.0.0.1:80:90",
        "256.0.0.1:80",
        "1.2.3.4:65536",
        "a.b.c.d:80",
        "1.2.3.4.5:80",
    ] {
        assert_eq!(cost_ledger::config::parse_api_config(bad), None, "{bad}");
    }
}

#[test]
fn access_token_renders_the_entropy_word() {
    let user = sample_user("eckon", "5962");
    assert_eq!(user.generate_access_token(414243), "414243");
    assert_eq!(user.generate_access_token(u64::MAX), "18446744073709551615");
}
