use git_credential_helper::parse;
use git_credential_helper::parse::{
    encode, git_credential_attribute, git_credential_attributes, key, key_value, value,
    GitCredentialAttribute, ProtocolError,
};

fn protocol(value: &str) -> GitCredentialAttribute {
    GitCredentialAttribute::Protocol(value.to_owned())
}

fn host(value: &str) -> GitCredentialAttribute {
    GitCredentialAttribute::Host(value.to_owned())
}

fn etc(key: &str, value: &str) -> GitCredentialAttribute {
    GitCredentialAttribute::Etc(key.to_owned(), value.to_owned())
}

fn decode(input: &str) -> Result<Vec<GitCredentialAttribute>, ProtocolError> {
    parse::parse_git_credential_attributes(input)
}

#[test]
fn parse_key() {
    assert_eq!(key("key=value"), Ok(("=value", "key")),);
}

#[test]
fn parse_value() {
    assert_eq!(value("value\n"), Ok(("\n", "value")));
}

#[test]
fn parse_key_value() {
    assert_eq!(key_value("key=value\nxxx"), Ok(("\nxxx", ("key", "value"))));
}

#[test]
fn parse_git_credential_attribute() {
    assert_eq!(
        git_credential_attribute("protocol=https\nxxx"),
        Ok((
            "\nxxx",
            GitCredentialAttribute::Protocol("https".to_owned())
        ))
    );
    assert_eq!(
        git_credential_attribute("host=github.com\nxxx"),
        Ok((
            "\nxxx",
            GitCredentialAttribute::Host("github.com".to_owned())
        ))
    );
}

#[test]
fn parse_git_credential_attributes() {
    let input = "protocol=https\nhost=github.com\n\n";

    assert_eq!(
        git_credential_attributes(input),
        Ok((
            "\n",
            vec![
                GitCredentialAttribute::Protocol(String::from("https")),
                GitCredentialAttribute::Host(String::from("github.com")),
            ]
        )),
    );
}

#[test]
fn attributes_without_what_follows() {
    let input = "protocol=https\nhost=github.com\n\n";

    assert_eq!(
        parse::parse_git_credential_attributes(input),
        Ok(vec![protocol("https"), host("github.com")]),
    );
}

#[test]
fn attribute_lines_and_what_follows() {
    assert_eq!(
        git_credential_attributes("host=example.com\n\ntrailing"),
        Ok(("\ntrailing", vec![host("example.com")]))
    );
    assert_eq!(
        git_credential_attributes("host=example.com\n\n\n"),
        Ok(("\n\n", vec![host("example.com")]))
    );
    assert_eq!(
        git_credential_attributes("host=example.com\n"),
        Err(ProtocolError::Malformed)
    );
    assert_eq!(
        git_credential_attributes("host=example.com\ntrailing\n\n"),
        Err(ProtocolError::Malformed)
    );
    assert_eq!(git_credential_attributes("\n"), Err(ProtocolError::Malformed));
}

#[test]
fn key_stops_at_separator_line_feed_and_nul() {
    assert_eq!(key("key"), Ok(("", "key")));
    assert_eq!(key("key\nrest"), Ok(("\nrest", "key")));
    assert_eq!(key("key\0rest"), Ok(("\0rest", "key")));
    assert_eq!(key("a=b=c"), Ok(("=b=c", "a")));
}

#[test]
fn key_must_not_be_empty() {
    assert_eq!(key(""), Err(ProtocolError::Malformed));
    assert_eq!(key("=value"), Err(ProtocolError::Malformed));
    assert_eq!(key("\nkey=value"), Err(ProtocolError::Malformed));
    assert_eq!(key("\0key=value"), Err(ProtocolError::Malformed));
}

#[test]
fn value_runs_to_the_line_feed() {
    assert_eq!(value("value"), Ok(("", "value")));
    assert_eq!(value(""), Ok(("", "")));
    assert_eq!(value("\nnext"), Ok(("\nnext", "")));
    assert_eq!(value("a=b c\nnext=x\n"), Ok(("\nnext=x\n", "a=b c")));
    assert_eq!(value("value\r\n"), Ok(("\n", "value\r")));
}

#[test]
fn value_refuses_nul() {
    assert_eq!(value("val\0ue\n"), Err(ProtocolError::Malformed));
    assert_eq!(value("\0"), Err(ProtocolError::Malformed));
    assert_eq!(value("value\n\0"), Ok(("\n\0", "value")));
}

#[test]
fn key_value_needs_the_separator() {
    assert_eq!(key_value("key"), Err(ProtocolError::Malformed));
    assert_eq!(key_value("key\n=value"), Err(ProtocolError::Malformed));
    assert_eq!(key_value("=value"), Err(ProtocolError::Malformed));
    assert_eq!(key_value("key=val\0ue"), Err(ProtocolError::Malformed));
    assert_eq!(key_value("key="), Ok(("", ("key", ""))));
    assert_eq!(key_value("key=a=b\n"), Ok(("\n", ("key", "a=b"))));
}

#[test]
fn attribute_of_each_known_key() {
    assert_eq!(
        GitCredentialAttribute::new("protocol", "https"),
        GitCredentialAttribute::Protocol("https".to_owned())
    );
    assert_eq!(
        GitCredentialAttribute::new("host", "example.com"),
        GitCredentialAttribute::Host("example.com".to_owned())
    );
    assert_eq!(
        GitCredentialAttribute::new("path", "a/b.git"),
        GitCredentialAttribute::Path("a/b.git".to_owned())
    );
    assert_eq!(
        GitCredentialAttribute::new("username", "alice"),
        GitCredentialAttribute::Username("alice".to_owned())
    );
    assert_eq!(
        GitCredentialAttribute::new("password", "secret"),
        GitCredentialAttribute::Password("secret".to_owned())
    );
    assert_eq!(
        GitCredentialAttribute::new("url", "https://example.com"),
        GitCredentialAttribute::Url("https://example.com".to_owned())
    );
}

#[test]
fn attribute_of_any_other_key() {
    assert_eq!(
        GitCredentialAttribute::new("wwwauth[]", "Basic"),
        etc("wwwauth[]", "Basic")
    );
    assert_eq!(GitCredentialAttribute::new("Host", "x"), etc("Host", "x"));
    assert_eq!(GitCredentialAttribute::new("host ", "x"), etc("host ", "x"));
    assert_eq!(GitCredentialAttribute::new(" host", "x"), etc(" host", "x"));
    assert_eq!(GitCredentialAttribute::new("hos", "x"), etc("hos", "x"));
    assert_eq!(GitCredentialAttribute::new("hosts", "x"), etc("hosts", "x"));
}

#[test]
fn attribute_key_and_value() {
    assert_eq!(protocol("https").key(), "protocol");
    assert_eq!(host("h").key(), "host");
    assert_eq!(GitCredentialAttribute::Path("p".to_owned()).key(), "path");
    assert_eq!(
        GitCredentialAttribute::Username("u".to_owned()).key(),
        "username"
    );
    assert_eq!(
        GitCredentialAttribute::Password("s".to_owned()).key(),
        "password"
    );
    assert_eq!(GitCredentialAttribute::Url("u".to_owned()).key(), "url");
    assert_eq!(etc("capability[]", "authtype").key(), "capability[]");
    assert_eq!(protocol("https").value(), "https");
    assert_eq!(etc("capability[]", "authtype").value(), "authtype");
}

#[test]
fn attribute_to_string() {
    assert_eq!(protocol("https").to_string(), "protocol=https");
    assert_eq!(host("github.com").to_string(), "host=github.com");
    assert_eq!(
        GitCredentialAttribute::Path("a/b.git".to_owned()).to_string(),
        "path=a/b.git"
    );
    assert_eq!(
        GitCredentialAttribute::Username("xxx".to_owned()).to_string(),
        "username=xxx"
    );
    assert_eq!(
        GitCredentialAttribute::Password("yyy".to_owned()).to_string(),
        "password=yyy"
    );
    assert_eq!(
        GitCredentialAttribute::Url("https://example.com/".to_owned()).to_string(),
        "url=https://example.com/"
    );
    assert_eq!(etc("key", "value").to_string(), "key=value");
    assert_eq!(host("").to_string(), "host=");
}

#[test]
fn attribute_is_well_formed() {
    assert!(host("example.com").is_well_formed());
    assert!(host("").is_well_formed());
    assert!(host("a=b").is_well_formed());
    assert!(host("a\rb").is_well_formed());
    assert!(etc("key", "value").is_well_formed());
    assert!(etc("host", "value").is_well_formed());
    assert!(!host("a\nb").is_well_formed());
    assert!(!host("a\0b").is_well_formed());
    assert!(!etc("", "value").is_well_formed());
    assert!(!etc("a=b", "value").is_well_formed());
    assert!(!etc("a\nb", "value").is_well_formed());
    assert!(!etc("a\0b", "value").is_well_formed());
    assert!(!etc("key", "va\nlue").is_well_formed());
}

#[test]
fn decode_fails_without_attribute_lines() {
    assert_eq!(decode("\n"), Err(ProtocolError::Malformed));
    assert_eq!(decode(""), Err(ProtocolError::Malformed));
    assert_eq!(decode("\n\n"), Err(ProtocolError::Malformed));
    assert_eq!(decode("\nhost=example.com\n\n"), Err(ProtocolError::Malformed));
}

#[test]
fn decode_fails_on_line_without_separator() {
    assert_eq!(decode("host\n\n"), Err(ProtocolError::Malformed));
    assert_eq!(
        decode("protocol=https\nhost\n\n"),
        Err(ProtocolError::Malformed)
    );
    assert_eq!(
        decode("protocol=https\nhost\nhost=example.com\n\n"),
        Err(ProtocolError::Malformed)
    );
    assert_eq!(decode("host"), Err(ProtocolError::Malformed));
}

#[test]
fn decode_fails_on_empty_key() {
    assert_eq!(decode("=value\n\n"), Err(ProtocolError::Malformed));
    assert_eq!(
        decode("host=example.com\n=value\n\n"),
        Err(ProtocolError::Malformed)
    );
}

#[test]
fn decode_fails_without_blank_line() {
    assert_eq!(decode("host=example.com"), Err(ProtocolError::Malformed));
    assert_eq!(decode("host=example.com\n"), Err(ProtocolError::Malformed));
    assert_eq!(
        decode("protocol=https\nhost=example.com\n"),
        Err(ProtocolError::Malformed)
    );
    assert_eq!(
        decode("protocol=https\nhost=exa"),
        Err(ProtocolError::Malformed)
    );
}

#[test]
fn decode_fails_on_nul() {
    assert_eq!(decode("ho\0st=example.com\n\n"), Err(ProtocolError::Malformed));
    assert_eq!(decode("host=exa\0mple.com\n\n"), Err(ProtocolError::Malformed));
    assert_eq!(decode("host=example.com\n\0\n"), Err(ProtocolError::Malformed));
}

#[test]
fn decode_accepts_empty_value() {
    assert_eq!(decode("host=\n\n"), Ok(vec![host("")]));
    assert_eq!(
        decode("path=\nhost=example.com\n\n"),
        Ok(vec![
            GitCredentialAttribute::Path(String::new()),
            host("example.com")
        ])
    );
}

#[test]
fn decode_ignores_what_follows_the_blank_line() {
    assert_eq!(
        decode("host=example.com\n\ntrailing"),
        Ok(vec![host("example.com")])
    );
    assert_eq!(
        decode("host=example.com\n\nhost=other.example\n\n"),
        Ok(vec![host("example.com")])
    );
    assert_eq!(
        decode("host=example.com\n\n\0=\n"),
        Ok(vec![host("example.com")])
    );
}

#[test]
fn decode_keeps_order_and_duplicates() {
    assert_eq!(
        decode("host=a\nprotocol=https\nhost=b\nhost=a\n\n"),
        Ok(vec![host("a"), protocol("https"), host("b"), host("a")])
    );
}

#[test]
fn decode_matches_keys_exactly() {
    assert_eq!(
        decode("Host=a\nhost =b\nHOST=c\nwwwauth[]=d\n\n"),
        Ok(vec![
            etc("Host", "a"),
            etc("host ", "b"),
            etc("HOST", "c"),
            etc("wwwauth[]", "d")
        ])
    );
}

#[test]
fn decode_all_known_keys() {
    assert_eq!(
        decode("protocol=https\nhost=example.com\npath=a/b.git\nusername=alice\npassword=s3cret\nurl=https://example.com/a/b.git\n\n"),
        Ok(vec![
            protocol("https"),
            host("example.com"),
            GitCredentialAttribute::Path("a/b.git".to_owned()),
            GitCredentialAttribute::Username("alice".to_owned()),
            GitCredentialAttribute::Password("s3cret".to_owned()),
            GitCredentialAttribute::Url("https://example.com/a/b.git".to_owned()),
        ])
    );
}

#[test]
fn decode_keeps_separator_and_carriage_return_in_value() {
    assert_eq!(decode("key=a=b=c\n\n"), Ok(vec![etc("key", "a=b=c")]));
    assert_eq!(decode("host=example.com\r\n\n"), Ok(vec![host("example.com\r")]));
    assert_eq!(
        decode("host=example.com\r\n\r\n"),
        Err(ProtocolError::Malformed)
    );
}

#[test]
fn decode_text_beyond_ascii() {
    assert_eq!(
        decode("host=b\u{fc}cher.example\nschl\u{fc}ssel=\u{65e5}\u{672c}\u{8a9e} \u{1f511}\n\n"),
        Ok(vec![
            host("b\u{fc}cher.example"),
            etc("schl\u{fc}ssel", "\u{65e5}\u{672c}\u{8a9e} \u{1f511}")
        ])
    );
    assert_eq!(
        decode("\u{1f511}\n\n"),
        Err(ProtocolError::Malformed)
    );
}

#[test]
fn encode_writes_lines_without_blank_line() {
    assert_eq!(
        encode(&vec![
            GitCredentialAttribute::Username("xxx".to_owned()),
            GitCredentialAttribute::Password("yyy".to_owned())
        ]),
        Ok("username=xxx\npassword=yyy\n".to_owned())
    );
    assert_eq!(encode(&vec![host("example.com")]), Ok("host=example.com\n".to_owned()));
    assert_eq!(encode(&vec![etc("key", "")]), Ok("key=\n".to_owned()));
    assert_eq!(encode(&Vec::new()), Ok(String::new()));
}

#[test]
fn encode_refuses_line_feed_in_value() {
    assert_eq!(encode(&vec![host("a\nb")]), Err(ProtocolError::Malformed));
    assert_eq!(encode(&vec![host("\n")]), Err(ProtocolError::Malformed));
    assert_eq!(encode(&vec![host("ab\n")]), Err(ProtocolError::Malformed));
    assert_eq!(
        encode(&vec![host("example.com"), protocol("ht\ntps")]),
        Err(ProtocolError::Malformed)
    );
    assert_eq!(
        encode(&vec![etc("key", "a\nhost=evil.example")]),
        Err(ProtocolError::Malformed)
    );
}

#[test]
fn encode_refuses_nul_and_bad_keys() {
    assert_eq!(encode(&vec![host("a\0b")]), Err(ProtocolError::Malformed));
    assert_eq!(encode(&vec![etc("", "value")]), Err(ProtocolError::Malformed));
    assert_eq!(encode(&vec![etc("a=b", "value")]), Err(ProtocolError::Malformed));
    assert_eq!(encode(&vec![etc("a\nb", "value")]), Err(ProtocolError::Malformed));
    assert_eq!(encode(&vec![etc("a\0b", "value")]), Err(ProtocolError::Malformed));
}

#[test]
fn written_and_read_back() {
    let attributes = vec![
        protocol("https"),
        host("example.com"),
        GitCredentialAttribute::Path("a=b/c.git".to_owned()),
        GitCredentialAttribute::Username("al ice".to_owned()),
        GitCredentialAttribute::Password("p\u{e4}ss\rword".to_owned()),
        GitCredentialAttribute::Url(String::new()),
        etc("capability[]", "authtype"),
        host("example.com"),
    ];
    let mut text = encode(&attributes).unwrap();
    text.push('\n');
    assert_eq!(
        text,
        "protocol=https\nhost=example.com\npath=a=b/c.git\nusername=al ice\npassword=p\u{e4}ss\rword\nurl=\ncapability[]=authtype\nhost=example.com\n\n"
    );
    assert_eq!(decode(&text), Ok(attributes));
}

#[test]
fn etc_with_known_key_reads_back_as_known() {
    let mut text = encode(&vec![etc("host", "example.com")]).unwrap();
    text.push('\n');
    assert_eq!(decode(&text), Ok(vec![host("example.com")]));
}

#[test]
fn read_and_written_back() {
    let text = "protocol=https\nhost=example.com\nwwwauth[]=Basic realm=\"x\"\npath=\n\n";
    let attributes = decode(text).unwrap();
    let mut written = encode(&attributes).unwrap();
    written.push('\n');
    assert_eq!(written, text);

    let longer = "host=example.com\n\nnot looked at";
    let attributes = decode(longer).unwrap();
    let mut written = encode(&attributes).unwrap();
    written.push('\n');
    assert_eq!(written, "host=example.com\n\n");
}
