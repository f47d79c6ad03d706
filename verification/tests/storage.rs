use oxidfetch::config::{Component, Config, Logo};
use oxidfetch::msgpack::MsgpackError;

#[test]
fn msgpack_to_config() {
    let comp = Component {
        name: "OS".into(),
        icon: Some("!".into()),
        content: "Some OS".into(),
    };

    let expected_cfg = Config {
        logo: Logo::Disabled,
        components: vec![comp],
        newline: true,
        spacing: 1,
        oneline: false,
    };

    let buf: Vec<u8> = vec![
        0x95, 0x81, 0x2, 0xc0, 0x91, 0x93, 0xa2, 0x4f, 0x53, 0xa1, 0x21, 0xa7, 0x53, 0x6f, 0x6d,
        0x65, 0x20, 0x4f, 0x53, 0xc3, 0x1, 0xc2,
    ];
    let cfg: Config = Config::from_msgpack(&buf).unwrap();

    assert_eq!(cfg, expected_cfg);
}

#[test]
fn msgpack_from_config() {
    let comp = Component {
        name: "OS".into(),
        icon: Some("!".into()),
        content: "Some OS".into(),
    };

    let cfg = Config {
        logo: Logo::Disabled,
        components: vec![comp],
        newline: true,
        spacing: 1,
        oneline: false,
    };

    let buf: Vec<u8> = cfg.to_msgpack();
    let expected_buf: Vec<u8> = vec![
        0x95, 0x81, 0x2, 0xc0, 0x91, 0x93, 0xa2, 0x4f, 0x53, 0xa1, 0x21, 0xa7, 0x53, 0x6f, 0x6d,
        0x65, 0x20, 0x4f, 0x53, 0xc3, 0x1, 0xc2,
    ];

    assert_eq!(buf, expected_buf);
}

#[test]
fn msgpack_round_trip() {
    let cfg = Config {
        logo: Logo::Custom(vec!["@@@".into(), "@ @".into()]),
        components: vec![
            Component { name: "a".into(), icon: None, content: "b".into() },
            Component { name: "c".into(), icon: Some("& ".into()), content: "{os}".into() },
        ],
        newline: false,
        spacing: 300,
        oneline: true,
    };
    let back = Config::from_msgpack(&cfg.to_msgpack()).unwrap();
    assert_eq!(back, cfg);
}

#[test]
fn msgpack_round_trip_of_starting_config() {
    let cfg = Config::new();
    let back = Config::from_msgpack(&cfg.to_msgpack()).unwrap();
    assert_eq!(back, cfg);
}

#[test]
fn msgpack_rejects_garbage() {
    assert!(matches!(Config::from_msgpack(&vec![0x00]), Err(MsgpackError::Malformed)));
    assert!(matches!(Config::from_msgpack(&Vec::new()), Err(MsgpackError::Malformed)));
}

#[test]
fn msgpack_rejects_widened_integer_form() {
    // as msgpack_from_config, but spacing stored as 0xCC 0x01 instead of 0x1
    let buf: Vec<u8> = vec![
        0x95, 0x81, 0x2, 0xc0, 0x91, 0x93, 0xa2, 0x4f, 0x53, 0xa1, 0x21, 0xa7, 0x53, 0x6f, 0x6d,
        0x65, 0x20, 0x4f, 0x53, 0xc3, 0xcc, 0x1, 0xc2,
    ];
    assert!(Config::from_msgpack(&buf).is_err());
}

#[test]
fn msgpack_rejects_trailing_bytes() {
    let mut buf = Config::new().to_msgpack();
    buf.push(0x00);
    assert!(Config::from_msgpack(&buf).is_err());
}

#[test]
fn starting_config_fields() {
    let cfg = Config::new();
    assert_eq!(cfg.logo, Logo::Disabled);
    assert_eq!(cfg.components.len(), 1);
    assert_eq!(cfg.components[0].name, "");
    assert_eq!(cfg.components[0].icon, None);
    assert_eq!(cfg.components[0].content, "");
    assert!(cfg.newline);
    assert_eq!(cfg.spacing, 1);
    assert!(cfg.oneline);
}
