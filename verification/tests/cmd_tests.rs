use scpsync::cmd::{split_ssh_address, CmdArgs, ConfigError};

#[test]
fn address_splits_at_the_single_at_sign() {
    let (user, host) = split_ssh_address("alice@example.com").unwrap();
    assert_eq!(user, "alice");
    assert_eq!(host, "example.com");
}

#[test]
fn address_without_at_sign_is_rejected() {
    assert_eq!(
        split_ssh_address("alice.example.com"),
        Err(ConfigError::InvalidSshAddress)
    );
}

#[test]
fn address_with_two_at_signs_is_rejected() {
    assert_eq!(
        split_ssh_address("alice@bob@example.com"),
        Err(ConfigError::InvalidSshAddress)
    );
}

#[test]
fn empty_address_is_rejected() {
    assert_eq!(split_ssh_address(""), Err(ConfigError::InvalidSshAddress));
}

#[test]
fn empty_user_or_host_still_splits() {
    let (user, host) = split_ssh_address("@example.com").unwrap();
    assert_eq!(user, "");
    assert_eq!(host, "example.com");
    let (user, host) = split_ssh_address("alice@").unwrap();
    assert_eq!(user, "alice");
    assert_eq!(host, "");
}

#[test]
fn args_carry_the_three_inputs() {
    let args = CmdArgs {
        source: "/src".to_string(),
        destination: "/backup".to_string(),
        ssh: "alice@example.com".to_string(),
    };
    assert_eq!(args.source, "/src");
    assert_eq!(args.destination, "/backup");
    assert_eq!(args.ssh, "alice@example.com");
}
