use dumd::block;
use dumd::text;
use dumd::url_value::Url;
use std::str::FromStr;

#[test]
fn parse_parse_code() {
    assert_eq!(
        Ok(block::Code {
            content: "code".to_string(),
            kind: block::CodeKind::Plain(2),
        }),
        block::Code::from_str("``code``")
    );
    assert_eq!(
        Ok(block::Code {
            content: "a type of code".to_string(),
            kind: block::CodeKind::Unknown("code".to_string(), 3),
        }),
        block::Code::from_str("```code\na type of code\n```")
    );
}

#[test]
fn parse_parse_heading() {
    assert_eq!(
        Ok(text::HeadingBuilder::default()
            .content("Heading 1".to_string())
            .build()
            .unwrap()),
        text::Heading::from_str("# Heading 1"),
    )
}

#[test]
fn parse_parse_text() {
    assert_eq!(
        Ok(text::Item::Bold("bold text".to_string())),
        text::Item::from_str("**bold text**")
    );
    assert_eq!(
        Ok(text::Item::Italic("italic text".to_string())),
        text::Item::from_str("*italic text*")
    );
    assert_eq!(
        Ok(text::Item::BoldItalic("bold italic text".to_string())),
        text::Item::from_str("***bold italic text***")
    );
    assert_eq!(
        Ok(text::Item::Link(
            text::LinkBuilder::default()
                .name("link".to_string())
                .href(Url::parse("https://example.com").expect(""))
                .build()
                .expect("")
        )),
        text::Item::from_str("[link](https://example.com)")
    );
    assert_eq!(
        Ok(text::Item::Link(
            text::LinkBuilder::default()
                .name("link".to_string())
                .href(Url::parse("https://example.com").expect(""))
                .make_img()
                .build()
                .expect("")
        )),
        text::Item::from_str("![link](https://example.com)")
    );
}
