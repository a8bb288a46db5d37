use dc_param::login_param::{
    config_key, get_readable_flags, unset_empty, ConfigEntry, ConfigValue, LoginField, LoginParam,
    StoredLogin,
};

fn nothing_stored() -> StoredLogin {
    StoredLogin {
        addr: None,
        mail_server: None,
        mail_port: None,
        mail_user: None,
        mail_pw: None,
        send_server: None,
        send_port: None,
        send_user: None,
        send_pw: None,
        server_flags: None,
    }
}

fn sample() -> LoginParam {
    LoginParam {
        addr: "me@example.org".to_string(),
        mail_server: "imap.example.org".to_string(),
        mail_user: "me".to_string(),
        mail_pw: "secret".to_string(),
        mail_port: 993,
        send_server: "smtp.example.org".to_string(),
        send_user: "sender".to_string(),
        send_pw: "".to_string(),
        send_port: 465,
        server_flags: 0x2 | 0x200 | 0x20000,
    }
}

fn text(entry: &ConfigEntry) -> String {
    match &entry.value {
        ConfigValue::Text(s) => s.clone(),
        ConfigValue::Number(_) => panic!("a text was expected"),
    }
}

fn number(entry: &ConfigEntry) -> i32 {
    match &entry.value {
        ConfigValue::Number(n) => *n,
        ConfigValue::Text(_) => panic!("a number was expected"),
    }
}

#[test]
fn new_login_is_blank() {
    let p = LoginParam::new();
    assert_eq!(p.addr, "");
    assert_eq!(p.mail_server, "");
    assert_eq!(p.mail_user, "");
    assert_eq!(p.mail_pw, "");
    assert_eq!(p.mail_port, 0);
    assert_eq!(p.send_server, "");
    assert_eq!(p.send_user, "");
    assert_eq!(p.send_pw, "");
    assert_eq!(p.send_port, 0);
    assert_eq!(p.server_flags, 0);
    assert_eq!(LoginParam::default().addr_str(), "");
}

#[test]
fn from_database_without_values() {
    let p = LoginParam::from_database(nothing_stored());
    assert_eq!(p.addr, "");
    assert_eq!(p.mail_server, "");
    assert_eq!(p.mail_port, 0);
    assert_eq!(p.send_pw, "");
    assert_eq!(p.server_flags, 0);
}

#[test]
fn from_database_trims_the_address_only() {
    let mut stored = nothing_stored();
    stored.addr = Some(" \t me@example.org\u{3000}\n".to_string());
    stored.mail_server = Some(" imap.example.org ".to_string());
    stored.mail_port = Some(993);
    stored.mail_user = Some("me".to_string());
    stored.mail_pw = Some(" pw ".to_string());
    stored.send_server = Some("smtp.example.org".to_string());
    stored.send_port = Some(-1);
    stored.send_user = Some("sender".to_string());
    stored.send_pw = Some("pw2".to_string());
    stored.server_flags = Some(0x104);
    let p = LoginParam::from_database(stored);
    assert_eq!(p.addr, "me@example.org");
    assert_eq!(p.addr_str(), "me@example.org");
    assert_eq!(p.mail_server, " imap.example.org ");
    assert_eq!(p.mail_port, 993);
    assert_eq!(p.mail_user, "me");
    assert_eq!(p.mail_pw, " pw ");
    assert_eq!(p.send_server, "smtp.example.org");
    assert_eq!(p.send_port, -1);
    assert_eq!(p.send_user, "sender");
    assert_eq!(p.send_pw, "pw2");
    assert_eq!(p.server_flags, 0x104);
}

#[test]
fn from_database_address_of_whitespace() {
    let mut stored = nothing_stored();
    stored.addr = Some("  \n ".to_string());
    assert_eq!(LoginParam::from_database(stored).addr, "");
    let mut inner = nothing_stored();
    inner.addr = Some("a b".to_string());
    assert_eq!(LoginParam::from_database(inner).addr, "a b");
}

#[test]
fn config_keys() {
    assert_eq!(config_key("", LoginField::Addr), "addr");
    assert_eq!(config_key("configured_", LoginField::MailServer), "configured_mail_server");
    assert_eq!(config_key("configured_", LoginField::MailPort), "configured_mail_port");
    assert_eq!(config_key("configured_", LoginField::MailUser), "configured_mail_user");
    assert_eq!(config_key("configured_", LoginField::MailPw), "configured_mail_pw");
    assert_eq!(config_key("x", LoginField::SendServer), "xsend_server");
    assert_eq!(config_key("x", LoginField::SendPort), "xsend_port");
    assert_eq!(config_key("x", LoginField::SendUser), "xsend_user");
    assert_eq!(config_key("x", LoginField::SendPw), "xsend_pw");
    assert_eq!(config_key("x", LoginField::ServerFlags), "xserver_flags");
}

#[test]
fn save_lists_every_field_in_order() {
    let entries = sample().save_to_database("configured_");
    let keys: Vec<&str> = entries.iter().map(|e| e.key.as_str()).collect();
    assert_eq!(
        keys,
        vec![
            "configured_addr",
            "configured_mail_server",
            "configured_mail_port",
            "configured_mail_user",
            "configured_mail_pw",
            "configured_send_server",
            "configured_send_port",
            "configured_send_user",
            "configured_send_pw",
            "configured_server_flags",
        ]
    );
    assert_eq!(text(&entries[0]), "me@example.org");
    assert_eq!(text(&entries[1]), "imap.example.org");
    assert_eq!(number(&entries[2]), 993);
    assert_eq!(text(&entries[3]), "me");
    assert_eq!(text(&entries[4]), "secret");
    assert_eq!(text(&entries[5]), "smtp.example.org");
    assert_eq!(number(&entries[6]), 465);
    assert_eq!(text(&entries[7]), "sender");
    assert_eq!(text(&entries[8]), "");
    assert_eq!(number(&entries[9]), 0x20202);
}

#[test]
fn readable_flags_by_name() {
    assert_eq!(get_readable_flags(0), "0");
    assert_eq!(get_readable_flags(0x2), "OAUTH2 ");
    assert_eq!(get_readable_flags(0x4), "AUTH_NORMAL ");
    assert_eq!(get_readable_flags(0x100), "IMAP_STARTTLS ");
    assert_eq!(get_readable_flags(0x200), "IMAP_SSL ");
    assert_eq!(get_readable_flags(0x400), "IMAP_PLAIN ");
    assert_eq!(get_readable_flags(0x10000), "SMTP_STARTTLS ");
    assert_eq!(get_readable_flags(0x20000), "SMTP_SSL ");
    assert_eq!(get_readable_flags(0x40000), "SMTP_PLAIN ");
    assert_eq!(get_readable_flags(0x2 | 0x200 | 0x20000), "OAUTH2 IMAP_SSL SMTP_SSL ");
}

#[test]
fn readable_flags_without_name() {
    assert_eq!(get_readable_flags(0x1), "0x1");
    assert_eq!(get_readable_flags(0x8), "0x8");
    assert_eq!(get_readable_flags(0x1 | 0x2), "0x1OAUTH2 ");
    assert_eq!(get_readable_flags(0x4 | 0x80), "AUTH_NORMAL 0x80");
    assert_eq!(get_readable_flags(0x40000000), "0x40000000");
    assert_eq!(get_readable_flags(i32::MIN), "0");
}

#[test]
fn unset_for_empty() {
    assert_eq!(unset_empty(&"".to_string()), "unset");
    assert_eq!(unset_empty(&"x".to_string()), "x");
}

#[test]
fn login_on_one_line() {
    assert_eq!(LoginParam::new().to_string(), "unset unset:0:unset:0 unset:0:unset:0 0");
    assert_eq!(
        sample().to_string(),
        "me@example.org me:***:imap.example.org:993 sender:0:smtp.example.org:465 OAUTH2 IMAP_SSL SMTP_SSL "
    );
}
