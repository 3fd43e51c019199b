use filepaste::args::Args;
use filepaste::config::AppConfig;
use filepaste::storage::config::StorageConfig;
use filepaste::totp::{otpauth_url, TotpExt};
use totp_rs::TOTP;

#[test]
fn totp_from_password_is_deterministic() {
    let totp = TOTP::from_password("password", "salt").unwrap();
    assert!(matches!(totp.algorithm, totp_rs::Algorithm::SHA1));
    assert_eq!(totp.digits, 6);
    assert_eq!(totp.step, 30);
    assert_eq!(totp.skew, 1);
    assert_eq!(
        totp.secret,
        vec![
            0x66, 0x9c, 0xfe, 0x52, 0x48, 0x21, 0x16, 0xfd, 0xa1, 0xaa, 0x2c, 0xbe, 0x40, 0x9b,
            0x2f, 0x56, 0xc8, 0xe4, 0x56, 0x37
        ]
    );
}

#[test]
fn totp_gen_url_format() {
    let totp = TOTP::from_password("password", "salt").unwrap();
    assert_eq!(
        totp.gen_url("alice", "filepaste"),
        "otpauth://totp/filepaste:alice?secret=M2OP4USIEELP3INKFS7EBGZPK3EOIVRX&issuer=filepaste&digits=6&period=30"
    );
}

#[test]
fn otpauth_url_multi_digit_numbers() {
    assert_eq!(
        otpauth_url("a", "b", "S", 8, 1234567),
        "otpauth://totp/b:a?secret=S&issuer=b&digits=8&period=1234567"
    );
    assert_eq!(
        otpauth_url("a", "b", "S", 0, 10),
        "otpauth://totp/b:a?secret=S&issuer=b&digits=0&period=10"
    );
}

#[test]
fn app_config_defaults() {
    let c = AppConfig::default();
    assert_eq!(c.endpoint.port, 3000);
    assert_eq!(c.password_salt, "filepaste");
    assert_eq!(c.default_retention_hours, 24);
    assert_eq!(c.totp_secret, "LongLongSecret");
    match c.storage {
        StorageConfig::Local { root } => assert_eq!(root, "./data"),
    }
}

#[test]
fn args_fields() {
    let a = Args { config: Some("c.toml".to_string()), verbose: 2 };
    assert_eq!(a.verbose, 2);
    assert_eq!(a.config.as_deref(), Some("c.toml"));
}
