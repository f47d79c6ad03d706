use oxidfetch::config::{Component, Config, Logo};
use oxidfetch::render::{render, RenderError};
use oxidfetch::resolve::{colorize, load};

#[test]
fn validate_rendered_text() {
    let rendered = render(Config {
        logo: Logo::Custom(vec![
            "S O M E    ".into(),
            "C U S T O M".into(),
            "L O G O    ".into(),
        ]),
        components: vec![
            Component {
                name: "Component with an icon".into(),
                icon: Some("* ".into()),
                content: "Some component text".into(),
            },
            Component {
                name: "Component without an icon".into(),
                icon: None,
                content: "Some component text".into(),
            },
            Component {
                name: "Component with colored text".into(),
                icon: None,
                content: "[black]1[red]2[green]3[yellow]4[blue]5[magenta]6[cyan]7[white]8[_]9"
                    .into(),
            },
        ],
        newline: true,
        spacing: 1,
        oneline: false,
    })
    .unwrap();

    let expected = vec![
        "S O M E     * Component with an icon:",
        "C U S T O M Some component text",
        "L O G O     ",
        "            Component without an icon:",
        "            Some component text",
        "            ",
        "            Component with colored text:",
        "            \x1b[30m1\x1b[31m2\x1b[32m3\x1b[33m4\x1b[34m5\x1b[35m6\x1b[36m7\x1b[37m8\x1b[0m9",
        "            ",
    ];

    assert_eq!(rendered, expected);
}

#[test]
fn render_disabled_logo_without_components_is_empty() {
    let out = render(Config {
        logo: Logo::Disabled,
        components: vec![],
        newline: true,
        spacing: 1,
        oneline: false,
    })
    .unwrap();
    assert_eq!(out, Vec::<String>::new());
}

#[test]
fn render_premade_logo_is_not_implemented() {
    let res = render(Config {
        logo: Logo::Os,
        components: vec![],
        newline: false,
        spacing: 0,
        oneline: false,
    });
    assert!(matches!(res, Err(RenderError::NotImplemented)));
}

#[test]
fn render_logo_with_single_component() {
    let out = render(Config {
        logo: Logo::Custom(vec![
            "S O M E    ".into(),
            "C U S T O M".into(),
            "L O G O    ".into(),
        ]),
        components: vec![Component {
            name: "Component with an icon".into(),
            icon: Some("* ".into()),
            content: "Some component text".into(),
        }],
        newline: true,
        spacing: 1,
        oneline: false,
    })
    .unwrap();
    let expected = vec![
        "S O M E     * Component with an icon:",
        "C U S T O M Some component text",
        "L O G O     ",
    ];
    assert_eq!(out, expected);
}

#[test]
fn render_oneline_component_without_logo() {
    let out = render(Config {
        logo: Logo::Disabled,
        components: vec![Component {
            name: "Component with an icon".into(),
            icon: Some("* ".into()),
            content: "Some component text".into(),
        }],
        newline: true,
        spacing: 1,
        oneline: true,
    })
    .unwrap();
    let expected = vec!["* Component with an icon: Some component text", ""];
    assert_eq!(out, expected);
}

#[test]
fn colorize_is_identity_without_markup() {
    assert_eq!(colorize("plain text, no directives"), "plain text, no directives");
    assert_eq!(colorize(""), "");
}

#[test]
fn load_is_identity_without_markup() {
    assert_eq!(load("plain text, no directives"), "plain text, no directives");
    assert_eq!(load(""), "");
}

#[test]
fn colorize_reset_only() {
    assert_eq!(colorize("abc[_]def"), "abc\x1b[0mdef");
}

#[test]
fn colorize_full_palette() {
    assert_eq!(
        colorize("[black]1[red]2[_]3"),
        "\x1b[30m1\x1b[31m2\x1b[0m3"
    );
}

#[test]
fn colorize_escaping() {
    // a doubled backslash before the bracket is consumed; the directive fires
    assert_eq!(colorize("\\\\[red]"), "\x1b[31m");
    // an unpaired backslash leaves the bracket literal and unresolved
    assert_eq!(colorize("\\[red]"), "\\[red]");
}

#[test]
fn colorize_drops_unknown_names() {
    assert_eq!(colorize("[sparkly]x"), "x");
}

#[test]
fn colorize_keeps_unterminated_directive_literal() {
    assert_eq!(colorize("ab[cd"), "ab[cd");
}

#[test]
fn load_drops_unknown_names() {
    assert_eq!(load("a{nope}b"), "ab");
}

#[test]
fn load_keeps_unterminated_placeholder_literal() {
    assert_eq!(load("{abc"), "{abc");
}

#[test]
fn load_escaping() {
    // an unpaired backslash leaves the brace literal and unresolved
    assert_eq!(load("\\{nope}"), "\\{nope}");
    // a doubled backslash is consumed and the placeholder fires
    assert_eq!(load("\\\\{nope}"), "");
}

#[test]
fn load_is_idempotent_once_resolved() {
    let once = load("a{nope}b{unset}c");
    assert_eq!(load(&once), once);
}

#[test]
fn load_queries_live_values() {
    let out = load("u={username}!");
    assert!(out.starts_with("u="));
    assert!(out.ends_with("!"));
}

#[test]
fn logo_taller_than_components_keeps_bare_logo_lines() {
    let out = render(Config {
        logo: Logo::Custom(vec!["A".into(), "B".into(), "C".into()]),
        components: vec![Component {
            name: "N".into(),
            icon: None,
            content: "c".into(),
        }],
        newline: false,
        spacing: 1,
        oneline: false,
    })
    .unwrap();
    assert_eq!(out, vec!["A N:", "B c", "C"]);
}

#[test]
fn indentation_measures_plain_text_width() {
    // the logo's last line holds markup; the text column aligns under the
    // two visible characters, not under the directive
    let out = render(Config {
        logo: Logo::Custom(vec!["[red]ab".into()]),
        components: vec![Component {
            name: "N".into(),
            icon: None,
            content: "c".into(),
        }],
        newline: false,
        spacing: 1,
        oneline: false,
    })
    .unwrap();
    assert_eq!(out, vec!["\x1b[31mab N:", "   c"]);
}

#[test]
fn colorize_adjacent_directives() {
    assert_eq!(colorize("[red][blue]x"), "\x1b[31m\x1b[34mx");
}

#[test]
fn colorize_keeps_lone_closing_bracket() {
    assert_eq!(colorize("a]b"), "a]b");
}

#[test]
fn colorize_several_resets() {
    assert_eq!(colorize("a[_]b[_]c"), "a\x1b[0mb\x1b[0mc");
    assert_eq!(colorize("[_][_]"), "\x1b[0m\x1b[0m");
}
