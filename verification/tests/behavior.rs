use dumd::block::{Code, CodeKind};
use dumd::text::{Heading, HeadingLvl, Item, Reference};
use dumd::token::{tokenize, ParseToken};
use dumd::url_value::Url;
use dumd::text::{ItemBuilder, LinkBuilder};
use dumd::{Error, ParseError};
use std::str::FromStr;

#[test]
fn tokenizer_total_on_odd_input() {
    // The tokenizer never fails: malformed input is tokenized literally.
    assert_eq!(3, tokenize("1.2.3").len());
    assert!(tokenize("").is_empty());
    assert_eq!(
        vec![ParseToken::RepeatSpecial('\u{e9}', 2)],
        tokenize("\u{e9}\u{e9}")
    );
    tokenize("***[[]]``` \n\n 0.0.0.0 a0b1c2 ...");
    tokenize("   ");
}

#[test]
fn tokenizer_numbers() {
    assert_eq!(vec![ParseToken::Number(12, None)], tokenize("12"));
    assert_eq!(vec![ParseToken::Number(3, Some(25))], tokenize("3.25"));
    // Digits after letters stay inside the text run.
    assert_eq!(
        vec![ParseToken::String("com1".to_string())],
        tokenize("com1")
    );
    // A space ends a number and begins a structural run.
    assert_eq!(
        vec![
            ParseToken::Number(1, None),
            ParseToken::RepeatSpecial(' ', 1),
            ParseToken::Number(2, None),
        ],
        tokenize("1 2")
    );
}

#[test]
fn heading_marker_too_long() {
    assert_eq!(
        Err(ParseError::UnexpectedChar('#')),
        Heading::from_str("####### x")
    );
}

#[test]
fn heading_round_trip() {
    let h = Heading::from_str("## Heading 2").unwrap();
    assert_eq!("## Heading 2", h.to_string());
    assert_eq!(Ok(h.clone()), Heading::from_str(&h.to_string()));
    // The underlined form parses to the same value the marker form
    // serializes to.
    let alt = Heading::from_str("Heading 2\n----").unwrap();
    assert_eq!(h, alt);
}

#[test]
fn heading_mixed_content_round_trip() {
    // Content assembled from several tokens survives the round trip.
    let h = Heading::from_str("## a*b* c.2, d").unwrap();
    assert_eq!("a*b* c.2, d", h.content);
    assert_eq!(Ok(h.clone()), Heading::from_str(&h.to_string()));
    // A marker run without the optional space still parses.
    let tight = Heading::from_str("#x").unwrap();
    assert_eq!("x", tight.content);
    assert_eq!(HeadingLvl::Level1, tight.level);
}

#[test]
fn link_target_with_structure_round_trip() {
    let v = Item::from_str("[go](https://example.com/a/b?x=1.5&y=2)").unwrap();
    assert_eq!(Ok(v.clone()), Item::from_str(&v.to_string()));
    let r = Reference::from_str("[k.9]: <https://example.com/p%20q>(t 1)").unwrap();
    assert_eq!(Ok(r.clone()), Reference::from_str(&r.to_string()));
}

#[test]
fn heading_levels() {
    assert_eq!(HeadingLvl::Level3, HeadingLvl::Level2.increment());
    assert_eq!(HeadingLvl::Level6, HeadingLvl::Level6.increment());
    assert_eq!(HeadingLvl::Level1, HeadingLvl::Level2.decrement());
    assert_eq!(HeadingLvl::Level1, HeadingLvl::Level1.decrement());
    assert_eq!(4, HeadingLvl::Level4.index());
}

#[test]
fn emphasis_close_must_match_exactly() {
    // A shorter close is an unterminated item, a longer one a stray
    // marker, and more than three markers are refused at once.
    assert_eq!(Err(ParseError::UnexpectedEnd), Item::from_str("**x*"));
    assert_eq!(Err(ParseError::UnexpectedChar('*')), Item::from_str("*x**"));
    assert_eq!(
        Err(ParseError::UnexpectedChar('*')),
        Item::from_str("****x****")
    );
    assert_eq!(Err(ParseError::UnexpectedEnd), Item::from_str("*abc"));
}

#[test]
fn item_round_trip() {
    let v = Item::from_str("***bold italic text***").unwrap();
    assert_eq!("***bold italic text***", v.to_string());
    assert_eq!(Ok(v.clone()), Item::from_str(&v.to_string()));
    let link = Item::from_str("![link](https://example.com)").unwrap();
    assert_eq!("![link](https://example.com/)", link.to_string());
    assert_eq!(Ok(link.clone()), Item::from_str(&link.to_string()));
}

#[test]
fn item_toggles() {
    let mut v = Item::Italic("x".to_string());
    v.asterick();
    assert_eq!(Item::Bold("x".to_string()), v);
    v.asterick();
    assert_eq!(Item::BoldItalic("x".to_string()), v);
    v.asterick();
    assert_eq!(Item::Bold("x".to_string()), v);
    assert_eq!(
        Item::Bold("y".to_string()),
        Item::Italic("y".to_string()).asterick_cons()
    );
    assert!(Item::Italic(String::new()).is_empty());
    assert!(!Item::Def(String::new()).is_empty());
    assert!(!Item::Bold("x".to_string()).is_empty());
}

#[test]
fn item_empty_and_plain_text() {
    assert_eq!(Err(ParseError::EmptyDocument), Item::from_str(""));
    assert_eq!(Err(ParseError::EmptyDocument), Item::from_str("   "));
    assert_eq!(
        Err(ParseError::UnexpectedString("hello".to_string())),
        Item::from_str("hello")
    );
}

#[test]
fn link_reference_fallback() {
    // A target that is no URL but holds only allow-listed characters
    // becomes a symbolic reference name.
    match Item::from_str("[see](note:1)") {
        Ok(Item::Link(l)) => {
            assert_eq!(Item::Link(l.clone()), Item::from_str("[see](note:1)").unwrap());
        }
        other => panic!("expected a link, got {:?}", other),
    }
    // An image never falls back.
    assert!(matches!(
        Item::from_str("![see](notaurl)"),
        Err(ParseError::InvalidUrl(_))
    ));
    // A target with characters outside the allow-list is refused.
    assert!(matches!(
        Item::from_str("[see](not a url)"),
        Err(ParseError::InvalidUrl(_))
    ));
}

#[test]
fn fence_length_is_kept() {
    // The stored fence length is the opening run's, whatever closes.
    assert_eq!(
        Ok(Code {
            content: "a".to_string(),
            kind: CodeKind::Plain(2),
        }),
        Code::from_str("``a```")
    );
    assert_eq!(
        Ok(Code {
            content: "a".to_string(),
            kind: CodeKind::Plain(1),
        }),
        Code::from_str("`a``")
    );
    let fenced = Code::from_str("````rust\nfn main\n`````").unwrap();
    assert_eq!(CodeKind::Rust(4), fenced.kind);
}

#[test]
fn code_errors() {
    assert_eq!(Err(ParseError::EmptyDocument), Code::from_str(""));
    assert_eq!(
        Err(ParseError::UnexpectedChar('\n')),
        Code::from_str("``a\nb``")
    );
    assert_eq!(Err(ParseError::UnexpectedEnd), Code::from_str("``abc"));
    assert_eq!(
        Err(ParseError::UnexpectedEnd),
        Code::from_str("```rust\nabc")
    );
    // An immediately closing fence encloses nothing.
    assert_eq!(
        Err(ParseError::EmptyContent),
        Code::parse(&vec![
            ParseToken::RepeatSpecial('`', 2),
            ParseToken::RepeatSpecial('`', 3),
        ])
        .map(|p| p.0)
    );
}

#[test]
fn code_round_trip() {
    let inline = Code::from_str("``code``").unwrap();
    assert_eq!("``code``", inline.to_string());
    assert_eq!(Ok(inline.clone()), Code::from_str(&inline.to_string()));
    let fenced = Code::from_str("```code\na type of code\n```").unwrap();
    assert_eq!("```code\na type of code\n```", fenced.to_string());
    assert_eq!(Ok(fenced.clone()), Code::from_str(&fenced.to_string()));
}

#[test]
fn code_kind_tags() {
    assert_eq!(CodeKind::Rust(0), CodeKind::from_str("rust").unwrap());
    assert_eq!(CodeKind::Plain(0), CodeKind::from_str("").unwrap());
    assert_eq!(
        CodeKind::Unknown("zig".to_string(), 0),
        CodeKind::from_str("zig").unwrap()
    );
    assert_eq!("javascript", CodeKind::JavaScript(3).to_string());
    assert_eq!("", CodeKind::Plain(2).to_string());
    assert_eq!(5, CodeKind::Haskell(2).increase_indent(3).get_index());
    assert_eq!(0, CodeKind::Go(0).get_index());
}

#[test]
fn reference_round_trip() {
    let r = Reference::from_str("[1]: <https://www.example.com/>").unwrap();
    assert_eq!("[1]: <https://www.example.com/>", r.to_string());
    assert_eq!(Ok(r.clone()), Reference::from_str(&r.to_string()));
}

#[test]
fn reference_title() {
    let r = Reference::from_str("[name.1]: <https://www.example.com/> (a title)").unwrap();
    assert_eq!("a title", r.title);
    assert_eq!("name.1", r.name);
    assert_eq!("[name.1]: <https://www.example.com/>(a title)", r.to_string());
    assert_eq!(Ok(r.clone()), Reference::from_str(&r.to_string()));
    let quoted = Reference::from_str("[q]: <https://example.com/> \"said so\"").unwrap();
    assert_eq!("said so", quoted.title);
}

#[test]
fn reference_errors() {
    assert_eq!(Err(ParseError::EmptyDocument), Reference::from_str(""));
    assert_eq!(
        Err(ParseError::UnexpectedChar(']')),
        Reference::from_str("[]: <https://example.com/>")
    );
    assert_eq!(Err(ParseError::UnexpectedEnd), Reference::from_str("[a]:"));
    // A bracketed target must reach its closing bracket.
    assert_eq!(
        Err(ParseError::UnexpectedEnd),
        Reference::from_str("[a]: <https://example.com/")
    );
    // A bare target may not contain a stray closing bracket.
    assert_eq!(
        Err(ParseError::UnexpectedChar('>')),
        Reference::from_str("[a]: https://example.com/>")
    );
    assert!(matches!(
        Reference::from_str("[a]: <oops>"),
        Err(ParseError::InvalidUrl(_))
    ));
}

#[test]
fn bare_reference_target() {
    // Without angle brackets a structural space run ends the target.
    let r = Reference::from_str("[a]: https://example.com/ (t)").unwrap();
    assert_eq!("https://example.com/", r.href.as_str());
    assert_eq!("t", r.title);
}

#[test]
fn url_normalization() {
    // The url crate normalizes: this fails if parsing returned its
    // input unchanged.
    let u = Url::parse("https://example.com").unwrap();
    assert_eq!("https://example.com/", u.as_str());
    assert_eq!("https://example.com/", u.to_string());
    assert!(Url::parse("not a url").is_err());
}

#[test]
fn builders_incomplete() {
    assert_eq!(
        Err(Error::IncompleteData),
        dumd::text::ItemBuilder::default().build()
    );
    assert_eq!(
        Err(Error::IncompleteData),
        dumd::text::HeadingBuilder::default().build()
    );
    assert_eq!(
        Err(Error::IncompleteData),
        dumd::text::LinkBuilder::default().build()
    );
    assert_eq!(
        Err(Error::IncompleteData),
        dumd::text::ReferenceBuilder::default().name("x").build()
    );
    assert_eq!(
        Err(Error::IncompleteData),
        dumd::block::CodeBuilder::default().content("x").build()
    );
    assert_eq!(
        ParseError::IncompleteBuilderData,
        ParseError::from(Error::IncompleteData)
    );
}

#[test]
fn item_builder_toggles() {
    assert_eq!(
        Ok(Item::Bold("b".to_string())),
        ItemBuilder::default().content("b".to_string()).bold().build()
    );
    assert_eq!(
        Ok(Item::BoldItalic("b".to_string())),
        ItemBuilder::default()
            .content("b".to_string())
            .bold()
            .italic()
            .build()
    );
    assert_eq!(
        Ok(Item::Def("b".to_string())),
        ItemBuilder::default()
            .content("b".to_string())
            .italic()
            .italic()
            .build()
    );
}

#[test]
fn link_builder_pieces() {
    let mut b = LinkBuilder::default();
    b.name_push('a');
    b.name_push_str("bc");
    let l = b.href(Url::parse("https://example.com/").unwrap()).build().unwrap();
    assert_eq!("abc", l.name);
    let r = Reference::from_str("[tag]: <https://example.com/>").unwrap();
    let viaref = LinkBuilder::default()
        .name("x".to_string())
        .reference(r)
        .build()
        .unwrap();
    assert_eq!("[x](tag)", Item::Link(viaref).to_string());
}
