//! Text constructs: headings, emphasis items, links and reference
//! definitions, each with its parser, its serializer and its builder.
use vstd::prelude::*;
use crate::strutil::{push_char, repeat_char, repeat_string};
use crate::token::{
    concat_texts, err_of_tok, spec_finish, spec_tokenize, tok_text, tokenize, toks_of, ParseToken,
    TokV,
};
use crate::{Error, ParseError, ParseErrorV};

verus! {

/// A paragraph of plain text; it carries no structure of its own.
#[derive(Debug, Clone, PartialEq, Eq, PartialOrd, Ord)]
pub struct Paragraph {}

/// The six heading depths.
#[derive(Debug, Copy, Clone, PartialEq, Eq, Structural, Hash)]
pub enum HeadingLvl {
    Level1,
    Level2,
    Level3,
    Level4,
    Level5,
    Level6,
}

/// The number of a heading depth, 1 through 6.
pub open spec fn lvl_num(l: HeadingLvl) -> nat {
    match l {
        HeadingLvl::Level1 => 1,
        HeadingLvl::Level2 => 2,
        HeadingLvl::Level3 => 3,
        HeadingLvl::Level4 => 4,
        HeadingLvl::Level5 => 5,
        HeadingLvl::Level6 => 6,
    }
}

/// The heading depth for a marker run of length `n`, 1 through 6.
pub open spec fn level_of(n: nat) -> HeadingLvl
    recommends
        1 <= n <= 6,
{
    if n <= 1 {
        HeadingLvl::Level1
    } else if n == 2 {
        HeadingLvl::Level2
    } else if n == 3 {
        HeadingLvl::Level3
    } else if n == 4 {
        HeadingLvl::Level4
    } else if n == 5 {
        HeadingLvl::Level5
    } else {
        HeadingLvl::Level6
    }
}

impl HeadingLvl {
    /// The next deeper level; the deepest stays where it is.
    pub fn increment(self) -> (r: Self)
        ensures
            lvl_num(r) == if lvl_num(self) < 6 {
                lvl_num(self) + 1
            } else {
                6
            },
    {
        match self {
            Self::Level1 => Self::Level2,
            Self::Level2 => Self::Level3,
            Self::Level3 => Self::Level4,
            Self::Level4 => Self::Level5,
            Self::Level5 => Self::Level6,
            Self::Level6 => Self::Level6,
        }
    }

    /// The next shallower level; the shallowest stays where it is.
    pub fn decrement(self) -> (r: Self)
        ensures
            lvl_num(r) == if lvl_num(self) > 1 {
                lvl_num(self) - 1
            } else {
                1
            },
    {
        match self {
            Self::Level1 => Self::Level1,
            Self::Level2 => Self::Level1,
            Self::Level3 => Self::Level2,
            Self::Level4 => Self::Level3,
            Self::Level5 => Self::Level4,
            Self::Level6 => Self::Level5,
        }
    }

    /// The level as a number, 1 through 6.
    pub fn index(self) -> (r: usize)
        ensures
            r as nat == lvl_num(self),
    {
        match self {
            Self::Level1 => 1,
            Self::Level2 => 2,
            Self::Level3 => 3,
            Self::Level4 => 4,
            Self::Level5 => 5,
            Self::Level6 => 6,
        }
    }
}

impl Default for HeadingLvl {
    fn default() -> (r: Self)
        ensures
            r == HeadingLvl::Level1,
    {
        Self::Level1
    }
}

/// A heading: a depth and its literal content.
#[derive(Debug, Clone, PartialEq, Eq)]
pub struct Heading {
    pub level: HeadingLvl,
    pub content: String,
}

/// The abstract value of a heading.
pub ghost struct HeadingV {
    pub level: HeadingLvl,
    pub content: Seq<char>,
}

impl View for Heading {
    type V = HeadingV;

    open spec fn view(&self) -> HeadingV {
        HeadingV { level: self.level, content: self.content@ }
    }
}

/// The heading grammar over tokens. A marker run of `n` `#`s (at most
/// six; more is `UnexpectedChar('#')`), an optional space run, then at
/// least one further token; the remaining tokens concatenated are the
/// content and the level is `n`. Alternatively a text run underlined
/// on the next line by `=`s (level 1) or `-`s (level 2).
pub open spec fn spec_parse_heading(toks: Seq<TokV>) -> Result<(HeadingV, int), ParseErrorV> {
    if toks.len() == 0 {
        Err(ParseErrorV::UnexpectedEnd)
    } else {
        match toks[0] {
            TokV::RepeatSpecial(c, n) => if c == '#' {
                if toks.len() < 2 {
                    Err(ParseErrorV::UnexpectedEnd)
                } else if n > 6 {
                    Err(ParseErrorV::UnexpectedChar('#'))
                } else {
                    let start: int = if toks[1] matches TokV::RepeatSpecial(' ', _) {
                        2
                    } else {
                        1
                    };
                    if start >= toks.len() {
                        Err(ParseErrorV::UnexpectedEnd)
                    } else {
                        Ok(
                            (
                                HeadingV {
                                    level: level_of(n),
                                    content: concat_texts(
                                        toks.subrange(start, toks.len() as int),
                                    ),
                                },
                                toks.len() as int,
                            ),
                        )
                    }
                }
            } else {
                Err(ParseErrorV::UnexpectedChar(c))
            },
            TokV::Str(s) => spec_parse_setext(toks, s),
            TokV::Number(_, _) => Err(err_of_tok(toks[0])),
        }
    }
}

/// The underlined branch of the heading grammar: the opening text run
/// `s`, one newline, then a run of `=` or of `-`.
pub open spec fn spec_parse_setext(toks: Seq<TokV>, s: Seq<char>) -> Result<
    (HeadingV, int),
    ParseErrorV,
> {
    if toks.len() < 2 {
        Err(ParseErrorV::UnexpectedEnd)
    } else {
        match toks[1] {
            TokV::RepeatSpecial(c, k) => if c == '\n' {
                if k != 1 {
                    Err(ParseErrorV::UnexpectedChar('\n'))
                } else if toks.len() < 3 {
                    Err(ParseErrorV::UnexpectedEnd)
                } else {
                    match toks[2] {
                        TokV::RepeatSpecial(c2, _) => if c2 == '=' {
                            Ok((HeadingV { level: HeadingLvl::Level1, content: s }, 3))
                        } else if c2 == '-' {
                            Ok((HeadingV { level: HeadingLvl::Level2, content: s }, 3))
                        } else {
                            Err(ParseErrorV::UnexpectedChar(c2))
                        },
                        _ => Err(err_of_tok(toks[2])),
                    }
                }
            } else {
                Err(ParseErrorV::UnexpectedChar(c))
            },
            _ => Err(err_of_tok(toks[1])),
        }
    }
}

/// The serialization of a heading: its marker run, one space, its
/// content.
pub open spec fn spec_serialize_heading(h: HeadingV) -> Seq<char> {
    repeat_char('#', lvl_num(h.level)) + seq![' '] + h.content
}

/// A whole-input heading parse: tokenize, parse, and refuse trailing
/// tokens.
pub open spec fn spec_heading_from_str(s: Seq<char>) -> Result<HeadingV, ParseErrorV> {
    spec_finish(spec_parse_heading(spec_tokenize(s)), spec_tokenize(s))
}

/// Concatenates the texts of `tokens[start..]`.
fn concat_from(tokens: &Vec<ParseToken>, start: usize) -> (r: String)
    requires
        start <= tokens@.len(),
    ensures
        r@ == concat_texts(toks_of(tokens@).subrange(start as int, tokens@.len() as int)),
{
    let ghost toks = toks_of(tokens@);
    let n = tokens.len();
    let mut content = String::new();
    let mut i = start;
    while i < n
        invariant
            start <= i <= n,
            n == tokens@.len(),
            toks == toks_of(tokens@),
            toks.len() == n,
            concat_texts(toks.subrange(start as int, n as int)) == content@ + concat_texts(
                toks.subrange(i as int, n as int),
            ),
        decreases n - i,
    {
        let piece = tokens[i].to_string();
        proof {
            let tail = toks.subrange(i as int, n as int);
            assert(tail[0] == toks[i as int]);
            assert(tail.drop_first() =~= toks.subrange(i + 1, n as int));
            assert(content@ + (tok_text(toks[i as int]) + concat_texts(
                toks.subrange(i + 1, n as int),
            )) =~= (content@ + tok_text(toks[i as int])) + concat_texts(
                toks.subrange(i + 1, n as int),
            ));
        }
        content.append(piece.as_str());
        i += 1;
    }
    proof {
        assert(toks.subrange(i as int, n as int) =~= Seq::<TokV>::empty());
        assert(content@ + Seq::<char>::empty() =~= content@);
    }
    content
}

impl Heading {
    /// Parses a heading from the front of a token sequence; on success
    /// also returns how many tokens it consumed.
    pub fn parse(tokens: &Vec<ParseToken>) -> (r: Result<(Heading, usize), ParseError>)
        ensures
            r matches Ok(p) ==> spec_parse_heading(toks_of(tokens@)) == Ok::<_, ParseErrorV>(
                (p.0@, p.1 as int),
            ),
            r matches Err(e) ==> spec_parse_heading(toks_of(tokens@)) == Err::<
                (HeadingV, int),
                _,
            >(e@),
    {
        let ghost toks = toks_of(tokens@);
        if tokens.len() == 0 {
            return Err(ParseError::UnexpectedEnd);
        }
        proof {
            assert(toks[0] == tokens@[0]@);
            if tokens@.len() >= 2 {
                assert(toks[1] == tokens@[1]@);
            }
            if tokens@.len() >= 3 {
                assert(toks[2] == tokens@[2]@);
            }
        }
        match &tokens[0] {
            ParseToken::RepeatSpecial(c, n) => {
                if *c != '#' {
                    return Err(ParseError::UnexpectedChar(*c));
                }
                if tokens.len() < 2 {
                    return Err(ParseError::UnexpectedEnd);
                }
                if *n > 6 {
                    return Err(ParseError::UnexpectedChar('#'));
                }
                let start: usize = match &tokens[1] {
                    ParseToken::RepeatSpecial(' ', _) => 2,
                    _ => 1,
                };
                if start >= tokens.len() {
                    return Err(ParseError::UnexpectedEnd);
                }
                let level = level_from_count(*n);
                let content = concat_from(tokens, start);
                Ok((Heading { level, content }, tokens.len()))
            },
            ParseToken::String(s) => {
                if tokens.len() < 2 {
                    return Err(ParseError::UnexpectedEnd);
                }
                match &tokens[1] {
                    ParseToken::RepeatSpecial(c, k) => {
                        if *c != '\n' {
                            return Err(ParseError::UnexpectedChar(*c));
                        }
                        if *k != 1 {
                            return Err(ParseError::UnexpectedChar('\n'));
                        }
                        if tokens.len() < 3 {
                            return Err(ParseError::UnexpectedEnd);
                        }
                        match &tokens[2] {
                            ParseToken::RepeatSpecial(c2, _) => {
                                if *c2 == '=' {
                                    Ok(
                                        (
                                            Heading {
                                                level: HeadingLvl::Level1,
                                                content: s.clone(),
                                            },
                                            3,
                                        ),
                                    )
                                } else if *c2 == '-' {
                                    Ok(
                                        (
                                            Heading {
                                                level: HeadingLvl::Level2,
                                                content: s.clone(),
                                            },
                                            3,
                                        ),
                                    )
                                } else {
                                    Err(ParseError::UnexpectedChar(*c2))
                                }
                            },
                            other => Err(other.to_err()),
                        }
                    },
                    other => Err(other.to_err()),
                }
            },
            other => Err(other.to_err()),
        }
    }

    /// Parses a string that must be exactly one heading.
    pub fn parse_str(s: &str) -> (r: Result<Heading, ParseError>)
        ensures
            r matches Ok(h) ==> spec_heading_from_str(s@) == Ok::<_, ParseErrorV>(h@),
            r matches Err(e) ==> spec_heading_from_str(s@) == Err::<HeadingV, _>(e@),
    {
        let tokens = tokenize(s);
        match Self::parse(&tokens) {
            Ok((h, i)) => if i == tokens.len() {
                Ok(h)
            } else {
                Err(tokens[i].to_err())
            },
            Err(e) => Err(e),
        }
    }

    /// The heading's serialization: `#` repeated by its level, a
    /// space, its content.
    pub fn to_string(&self) -> (r: String)
        ensures
            r@ == spec_serialize_heading(self@),
    {
        let mut s = repeat_string('#', self.level.index());
        push_char(&mut s, ' ');
        s.append(self.content.as_str());
        s
    }
}

/// The exec counterpart of `level_of`.
fn level_from_count(n: usize) -> (r: HeadingLvl)
    requires
        n <= 6,
    ensures
        r == level_of(n as nat),
{
    if n <= 1 {
        HeadingLvl::Level1
    } else if n == 2 {
        HeadingLvl::Level2
    } else if n == 3 {
        HeadingLvl::Level3
    } else if n == 4 {
        HeadingLvl::Level4
    } else if n == 5 {
        HeadingLvl::Level5
    } else {
        HeadingLvl::Level6
    }
}

impl std::str::FromStr for Heading {
    type Err = ParseError;

    fn from_str(s: &str) -> Result<Heading, ParseError> {
        Heading::parse_str(s)
    }
}

/// Builds a heading from named fields; the content must be set.
#[derive(Debug, Clone, PartialEq, Eq)]
pub struct HeadingBuilder {
    content: String,
    level: HeadingLvl,
}

/// The abstract value of a heading builder.
pub ghost struct HeadingBuilderV {
    pub content: Seq<char>,
    pub level: HeadingLvl,
}

impl View for HeadingBuilder {
    type V = HeadingBuilderV;

    closed spec fn view(&self) -> HeadingBuilderV {
        HeadingBuilderV { content: self.content@, level: self.level }
    }
}

impl Default for HeadingBuilder {
    fn default() -> (r: Self)
        ensures
            r@.content.len() == 0,
            r@.level == HeadingLvl::Level1,
    {
        HeadingBuilder { content: String::new(), level: HeadingLvl::Level1 }
    }
}

impl HeadingBuilder {
    /// Replaces the content.
    pub fn content(self, s: String) -> (r: Self)
        ensures
            r@.content == s@,
            r@.level == self@.level,
    {
        HeadingBuilder { content: s, level: self.level }
    }

    /// Replaces the level.
    pub fn level(self, l: HeadingLvl) -> (r: Self)
        ensures
            r@.content == self@.content,
            r@.level == l,
    {
        HeadingBuilder { content: self.content, level: l }
    }

    /// The finished heading; empty content is incomplete data.
    pub fn build(self) -> (r: Result<Heading, Error>)
        ensures
            self@.content.len() == 0 <==> r is Err,
            r matches Ok(h) ==> h@.content == self@.content && h@.level == self@.level,
            r matches Err(e) ==> e == Error::IncompleteData,
    {
        if self.content.as_str().is_empty() {
            return Err(Error::IncompleteData);
        }
        Ok(Heading { level: self.level, content: self.content })
    }
}

/// Where a link points: an absolute URL, the name of a reference
/// defined elsewhere, or nowhere yet.
#[derive(Debug, Clone, PartialEq, Eq)]
pub enum LinkSource {
    Url(crate::url_value::Url),
    Ref(String),
    Unset,
}

/// The abstract value of a link source.
pub ghost enum LinkSrcV {
    Url(Seq<char>),
    Ref(Seq<char>),
    Unset,
}

impl View for LinkSource {
    type V = LinkSrcV;

    open spec fn view(&self) -> LinkSrcV {
        match self {
            LinkSource::Url(u) => LinkSrcV::Url(u@),
            LinkSource::Ref(r) => LinkSrcV::Ref(r@),
            LinkSource::Unset => LinkSrcV::Unset,
        }
    }
}

impl LinkSource {
    /// The serialization of a link source: the URL's text, the
    /// reference's name, or nothing.
    pub fn to_string(&self) -> (r: String)
        ensures
            r@ == spec_link_src_text(self@),
    {
        match self {
            LinkSource::Url(u) => u.to_string(),
            LinkSource::Ref(r0) => r0.clone(),
            LinkSource::Unset => String::new(),
        }
    }
}

impl Default for LinkSource {
    fn default() -> (r: Self)
        ensures
            r@ == LinkSrcV::Unset,
    {
        LinkSource::Unset
    }
}

/// A link or image: its display name, its target, and whether it is
/// an image.
#[derive(Debug, Clone, PartialEq, Eq)]
pub struct Link {
    pub name: String,
    pub src: LinkSource,
    pub img: bool,
}

/// The abstract value of a link.
pub ghost struct LinkV {
    pub name: Seq<char>,
    pub src: LinkSrcV,
    pub img: bool,
}

impl View for Link {
    type V = LinkV;

    open spec fn view(&self) -> LinkV {
        LinkV { name: self.name@, src: self.src@, img: self.img }
    }
}

/// An inline item: an emphasis run around text, plain text, or a link.
#[derive(Debug, Clone, PartialEq, Eq)]
pub enum Item {
    Bold(String),
    BoldItalic(String),
    Def(String),
    Italic(String),
    Link(Link),
}

/// The abstract value of an inline item.
pub ghost enum ItemV {
    Bold(Seq<char>),
    BoldItalic(Seq<char>),
    Def(Seq<char>),
    Italic(Seq<char>),
    Link(LinkV),
}

impl View for Item {
    type V = ItemV;

    open spec fn view(&self) -> ItemV {
        match self {
            Item::Bold(s) => ItemV::Bold(s@),
            Item::BoldItalic(s) => ItemV::BoldItalic(s@),
            Item::Def(s) => ItemV::Def(s@),
            Item::Italic(s) => ItemV::Italic(s@),
            Item::Link(l) => ItemV::Link(l@),
        }
    }
}

impl From<Link> for Item {
    fn from(value: Link) -> (r: Self) {
        Item::Link(value)
    }
}

impl vstd::std_specs::convert::FromSpecImpl<Link> for Item {
    open spec fn obeys_from_spec() -> bool {
        true
    }

    open spec fn from_spec(value: Link) -> Self {
        Item::Link(value)
    }
}

/// One application of an emphasis marker to an item: italic deepens to
/// bold, bold to bold-italic, bold-italic folds back to bold; plain
/// text and links are unchanged.
pub open spec fn spec_asterick(v: ItemV) -> ItemV {
    match v {
        ItemV::Italic(c) => ItemV::Bold(c),
        ItemV::Bold(c) => ItemV::BoldItalic(c),
        ItemV::BoldItalic(c) => ItemV::Bold(c),
        other => other,
    }
}

/// The emphasis an opening run of `n` markers (1 through 3) puts
/// around its payload.
pub open spec fn item_of_runlen(n: nat, s: Seq<char>) -> ItemV {
    if n <= 1 {
        ItemV::Italic(s)
    } else if n == 2 {
        ItemV::Bold(s)
    } else {
        ItemV::BoldItalic(s)
    }
}

impl Item {
    /// Applies one emphasis marker in place.
    pub fn asterick(&mut self)
        ensures
            final(self)@ == spec_asterick(old(self)@),
    {
        match self {
            Item::Italic(c) => {
                *self = Item::Bold(c.clone());
            },
            Item::Bold(c) => {
                *self = Item::BoldItalic(c.clone());
            },
            Item::BoldItalic(c) => {
                *self = Item::Bold(c.clone());
            },
            _ => {},
        }
    }

    /// Applies one emphasis marker, by value.
    pub fn asterick_cons(self) -> (r: Self)
        ensures
            r@ == spec_asterick(self@),
    {
        match self {
            Item::Italic(c) => Item::Bold(c),
            Item::Bold(c) => Item::BoldItalic(c),
            Item::BoldItalic(c) => Item::Bold(c),
            other => other,
        }
    }

    /// Whether an emphasis item encloses no text; plain text and links
    /// are never considered empty.
    pub fn is_empty(&self) -> (r: bool)
        ensures
            r == spec_item_is_empty(self@),
    {
        match self {
            Item::Italic(c) => c.as_str().is_empty(),
            Item::Bold(c) => c.as_str().is_empty(),
            Item::BoldItalic(c) => c.as_str().is_empty(),
            _ => false,
        }
    }
}

/// Whether an emphasis item encloses no text.
pub open spec fn spec_item_is_empty(v: ItemV) -> bool {
    match v {
        ItemV::Italic(c) => c.len() == 0,
        ItemV::Bold(c) => c.len() == 0,
        ItemV::BoldItalic(c) => c.len() == 0,
        _ => false,
    }
}

/// Expects exactly one occurrence of the structural character `c` at
/// position `i`; anything else names the error.
pub open spec fn spec_expect_run1(toks: Seq<TokV>, i: int, c: char) -> Result<int, ParseErrorV> {
    if i >= toks.len() {
        Err(ParseErrorV::UnexpectedEnd)
    } else {
        match toks[i] {
            TokV::RepeatSpecial(d, k) => if d == c && k == 1 {
                Ok(i + 1)
            } else {
                Err(ParseErrorV::UnexpectedChar(d))
            },
            _ => Err(err_of_tok(toks[i])),
        }
    }
}

/// A character a symbolic reference name may consist of.
pub open spec fn allowed_ref_char(c: char) -> bool {
    crate::token::is_letter(c) || crate::token::is_digit(c) || c == '?' || c == '!' || c == '.'
        || c == ',' || c == ';' || c == ':' || c == '\'' || c == '"'
}

/// Every character of `s` may stand in a symbolic reference name.
pub open spec fn all_ref_chars(s: Seq<char>) -> bool {
    forall|k: int| 0 <= k < s.len() ==> allowed_ref_char(#[trigger] s[k])
}

/// The texts of the tokens up to the closing parenthesis, accumulated
/// as the link's target.
pub open spec fn spec_link_target(toks: Seq<TokV>, i: int, acc: Seq<char>) -> Result<
    (Seq<char>, int),
    ParseErrorV,
>
    decreases toks.len() - i,
{
    if i >= toks.len() {
        Err(ParseErrorV::UnexpectedEnd)
    } else if toks[i] == TokV::RepeatSpecial(')', 1) {
        Ok((acc, i + 1))
    } else {
        spec_link_target(toks, i + 1, acc + tok_text(toks[i]))
    }
}

/// What the accumulated target makes of the link: a URL where the url
/// crate accepts it; otherwise, for a plain link whose target consists
/// of allow-listed characters, the name of a reference; otherwise an
/// invalid URL. Images never fall back to a reference.
pub open spec fn spec_make_link(name: Seq<char>, tgt: Seq<char>, img: bool, i: int) -> Result<
    (ItemV, int),
    ParseErrorV,
> {
    match crate::url_value::url_norm(tgt) {
        Some(t) => Ok((ItemV::Link(LinkV { name, src: LinkSrcV::Url(t), img }), i)),
        None => if img {
            Err(ParseErrorV::InvalidUrl)
        } else if all_ref_chars(tgt) {
            Ok((ItemV::Link(LinkV { name, src: LinkSrcV::Ref(tgt), img }), i))
        } else {
            Err(ParseErrorV::InvalidUrl)
        },
    }
}

/// The link grammar after its opening token: for an image the `[`
/// still to come, then a text-run name, `]`, `(`, the target up to
/// `)`, and nothing after it.
pub open spec fn spec_parse_link(toks: Seq<TokV>, i: int, img: bool) -> Result<
    (ItemV, int),
    ParseErrorV,
> {
    let r0: Result<int, ParseErrorV> = if img {
        spec_expect_run1(toks, i, '[')
    } else {
        Ok(i)
    };
    match r0 {
        Err(e) => Err(e),
        Ok(i1) => if i1 >= toks.len() {
            Err(ParseErrorV::UnexpectedEnd)
        } else {
            match toks[i1] {
                TokV::Str(name) => match spec_expect_run1(toks, i1 + 1, ']') {
                    Err(e) => Err(e),
                    Ok(i2) => match spec_expect_run1(toks, i2, '(') {
                        Err(e) => Err(e),
                        Ok(i3) => match spec_link_target(toks, i3, seq![]) {
                            Err(e) => Err(e),
                            Ok((tgt, i4)) => if i4 < toks.len() {
                                Err(err_of_tok(toks[i4]))
                            } else {
                                spec_make_link(name, tgt, img, i4)
                            },
                        },
                    },
                },
                TokV::RepeatSpecial(c, _) => Err(ParseErrorV::UnexpectedChar(c)),
                TokV::Number(_, _) => Err(err_of_tok(toks[i1])),
            }
        },
    }
}

/// The emphasis grammar after its opening run of `n` markers: a run
/// longer than three is refused at once; then one text run, and a
/// closing run that must match the opening exactly - a shorter close
/// reads as an unterminated item, a longer one as a stray marker.
pub open spec fn spec_parse_emphasis(toks: Seq<TokV>, i: int, n: nat) -> Result<
    (ItemV, int),
    ParseErrorV,
> {
    if n > 3 {
        Err(ParseErrorV::UnexpectedChar('*'))
    } else if i >= toks.len() {
        Err(ParseErrorV::UnexpectedEnd)
    } else {
        match toks[i] {
            TokV::Str(s) => if i + 1 >= toks.len() {
                Err(ParseErrorV::UnexpectedEnd)
            } else {
                match toks[i + 1] {
                    TokV::RepeatSpecial(c, m) => if c == '*' {
                        if m == n {
                            Ok((item_of_runlen(n, s), i + 2))
                        } else if m < n {
                            Err(ParseErrorV::UnexpectedEnd)
                        } else {
                            Err(ParseErrorV::UnexpectedChar('*'))
                        }
                    } else {
                        Err(ParseErrorV::UnexpectedChar(c))
                    },
                    _ => Err(err_of_tok(toks[i + 1])),
                }
            },
            TokV::RepeatSpecial(c, _) => Err(ParseErrorV::UnexpectedChar(c)),
            TokV::Number(_, _) => Err(err_of_tok(toks[i])),
        }
    }
}

/// Whether a token is a run of spaces.
pub open spec fn is_space_tok(t: TokV) -> bool {
    t matches TokV::RepeatSpecial(' ', _)
}

/// The item grammar from position `i`: leading space runs are passed
/// over; the first remaining token picks the construct - `!` or `[`
/// a link, `*` an emphasis run; input with nothing but spaces is an
/// empty document.
pub open spec fn spec_parse_item(toks: Seq<TokV>, i: int) -> Result<(ItemV, int), ParseErrorV>
    decreases toks.len() - i,
{
    if i >= toks.len() {
        Err(ParseErrorV::EmptyDocument)
    } else {
        match toks[i] {
            TokV::RepeatSpecial(c, n) => if c == ' ' {
                spec_parse_item(toks, i + 1)
            } else if c == '!' && n == 1 {
                spec_parse_link(toks, i + 1, true)
            } else if c == '[' && n == 1 {
                spec_parse_link(toks, i + 1, false)
            } else if c == '*' {
                spec_parse_emphasis(toks, i + 1, n)
            } else {
                Err(ParseErrorV::UnexpectedChar(c))
            },
            TokV::Str(s) => Err(ParseErrorV::UnexpectedString(s)),
            TokV::Number(_, _) => Err(err_of_tok(toks[i])),
        }
    }
}

/// The serialization of a link source: the URL's text, the reference's
/// name, or nothing.
pub open spec fn spec_link_src_text(s: LinkSrcV) -> Seq<char> {
    match s {
        LinkSrcV::Url(t) => t,
        LinkSrcV::Ref(r) => r,
        LinkSrcV::Unset => seq![],
    }
}

/// The serialization of an item: the payload between matching emphasis
/// runs, or a link written out with its name and target.
pub open spec fn spec_serialize_item(v: ItemV) -> Seq<char> {
    match v {
        ItemV::Def(s) => s,
        ItemV::Italic(s) => repeat_char('*', 1) + s + repeat_char('*', 1),
        ItemV::Bold(s) => repeat_char('*', 2) + s + repeat_char('*', 2),
        ItemV::BoldItalic(s) => repeat_char('*', 3) + s + repeat_char('*', 3),
        ItemV::Link(l) => (if l.img {
            seq!['!']
        } else {
            Seq::<char>::empty()
        }) + seq!['['] + l.name + seq![']', '('] + spec_link_src_text(l.src) + seq![')'],
    }
}

/// A whole-input item parse: tokenize, parse, and refuse trailing
/// tokens.
pub open spec fn spec_item_from_str(s: Seq<char>) -> Result<ItemV, ParseErrorV> {
    spec_finish(spec_parse_item(spec_tokenize(s), 0), spec_tokenize(s))
}

/// Whether every character of `s` may stand in a reference name.
fn all_ref_chars_exec(s: &str) -> (r: bool)
    ensures
        r == all_ref_chars(s@),
{
    let l = s.unicode_len();
    let mut i: usize = 0;
    while i < l
        invariant
            l == s@.len(),
            i <= l,
            forall|k: int| 0 <= k < i ==> allowed_ref_char(#[trigger] s@[k]),
        decreases l - i,
    {
        let c = s.get_char(i);
        let cu = c as u32;
        let ok = (65 <= cu && cu <= 90) || (97 <= cu && cu <= 122) || (48 <= cu && cu <= 57)
            || c == '?' || c == '!' || c == '.' || c == ',' || c == ';' || c == ':' || c == '\''
            || c == '"';
        if !ok {
            return false;
        }
        i += 1;
    }
    true
}

/// Expects exactly one occurrence of the structural character `c`.
fn expect_run1(tokens: &Vec<ParseToken>, i: usize, c: char) -> (r: Result<usize, ParseError>)
    ensures
        r matches Ok(j) ==> spec_expect_run1(toks_of(tokens@), i as int, c) == Ok::<
            _,
            ParseErrorV,
        >(j as int) && j == i + 1 && i < tokens@.len(),
        r matches Err(e) ==> spec_expect_run1(toks_of(tokens@), i as int, c) == Err::<int, _>(e@),
{
    if i >= tokens.len() {
        return Err(ParseError::UnexpectedEnd);
    }
    proof {
        assert(toks_of(tokens@)[i as int] == tokens@[i as int]@);
    }
    match &tokens[i] {
        ParseToken::RepeatSpecial(d, k) => if *d == c && *k == 1 {
            Ok(i + 1)
        } else {
            Err(ParseError::UnexpectedChar(*d))
        },
        other => Err(other.to_err()),
    }
}

/// Accumulates token texts up to the closing parenthesis.
fn link_target(tokens: &Vec<ParseToken>, i: usize, acc: String) -> (r: Result<
    (String, usize),
    ParseError,
>)
    requires
        i <= tokens@.len(),
    ensures
        r matches Ok(p) ==> spec_link_target(toks_of(tokens@), i as int, acc@) == Ok::<
            _,
            ParseErrorV,
        >((p.0@, p.1 as int)) && p.1 <= tokens@.len(),
        r matches Err(e) ==> spec_link_target(toks_of(tokens@), i as int, acc@) == Err::<
            (Seq<char>, int),
            _,
        >(e@),
    decreases tokens@.len() - i,
{
    if i >= tokens.len() {
        return Err(ParseError::UnexpectedEnd);
    }
    proof {
        assert(toks_of(tokens@)[i as int] == tokens@[i as int]@);
    }
    let is_close = match &tokens[i] {
        ParseToken::RepeatSpecial(c, k) => *c == ')' && *k == 1,
        _ => false,
    };
    if is_close {
        Ok((acc, i + 1))
    } else {
        let piece = tokens[i].to_string();
        let mut acc2 = acc;
        acc2.append(piece.as_str());
        link_target(tokens, i + 1, acc2)
    }
}

/// Resolves the accumulated target into a link.
fn make_link(name: String, tgt: String, img: bool, i: usize) -> (r: Result<
    (Item, usize),
    ParseError,
>)
    ensures
        r matches Ok(p) ==> spec_make_link(name@, tgt@, img, i as int) == Ok::<_, ParseErrorV>(
            (p.0@, p.1 as int),
        ),
        r matches Err(e) ==> spec_make_link(name@, tgt@, img, i as int) == Err::<
            (ItemV, int),
            _,
        >(e@),
{
    match crate::url_value::Url::parse(tgt.as_str()) {
        Ok(u) => Ok((Item::Link(Link { name, src: LinkSource::Url(u), img }), i)),
        Err(e) => {
            if img {
                return Err(e);
            }
            if all_ref_chars_exec(tgt.as_str()) {
                Ok((Item::Link(Link { name, src: LinkSource::Ref(tgt), img }), i))
            } else {
                Err(e)
            }
        },
    }
}

/// Parses a link or image after its opening token; consumes the rest
/// of the token sequence.
fn process_link_item(tokens: &Vec<ParseToken>, i: usize, img: bool) -> (r: Result<
    (Item, usize),
    ParseError,
>)
    requires
        i <= tokens@.len(),
    ensures
        r matches Ok(p) ==> spec_parse_link(toks_of(tokens@), i as int, img) == Ok::<
            _,
            ParseErrorV,
        >((p.0@, p.1 as int)) && p.1 <= tokens@.len(),
        r matches Err(e) ==> spec_parse_link(toks_of(tokens@), i as int, img) == Err::<
            (ItemV, int),
            _,
        >(e@),
{
    let ghost toks = toks_of(tokens@);
    let n = tokens.len();
    let j = if img {
        match expect_run1(tokens, i, '[') {
            Ok(j2) => j2,
            Err(e) => {
                return Err(e);
            },
        }
    } else {
        i
    };
    if j >= n {
        return Err(ParseError::UnexpectedEnd);
    }
    proof {
        assert(toks[j as int] == tokens@[j as int]@);
    }
    let name = match &tokens[j] {
        ParseToken::String(s) => s.clone(),
        ParseToken::RepeatSpecial(c, _) => {
            return Err(ParseError::UnexpectedChar(*c));
        },
        other => {
            return Err(other.to_err());
        },
    };
    let j1 = match expect_run1(tokens, j + 1, ']') {
        Ok(j2) => j2,
        Err(e) => {
            return Err(e);
        },
    };
    let j2 = match expect_run1(tokens, j1, '(') {
        Ok(j3) => j3,
        Err(e) => {
            return Err(e);
        },
    };
    let (tgt, j3) = match link_target(tokens, j2, String::new()) {
        Ok(p) => p,
        Err(e) => {
            return Err(e);
        },
    };
    if j3 < n {
        proof {
            assert(toks[j3 as int] == tokens@[j3 as int]@);
        }
        return Err(tokens[j3].to_err());
    }
    make_link(name, tgt, img, j3)
}

/// Parses an emphasis run after its opening run of `n` markers.
fn parse_emphasis(tokens: &Vec<ParseToken>, i: usize, n: usize) -> (r: Result<
    (Item, usize),
    ParseError,
>)
    requires
        i <= tokens@.len(),
    ensures
        r matches Ok(p) ==> spec_parse_emphasis(toks_of(tokens@), i as int, n as nat) == Ok::<
            _,
            ParseErrorV,
        >((p.0@, p.1 as int)) && p.1 <= tokens@.len(),
        r matches Err(e) ==> spec_parse_emphasis(toks_of(tokens@), i as int, n as nat) == Err::<
            (ItemV, int),
            _,
        >(e@),
{
    if n > 3 {
        return Err(ParseError::UnexpectedChar('*'));
    }
    if i >= tokens.len() {
        return Err(ParseError::UnexpectedEnd);
    }
    proof {
        assert(toks_of(tokens@)[i as int] == tokens@[i as int]@);
        if i + 1 < tokens@.len() {
            assert(toks_of(tokens@)[i + 1] == tokens@[i + 1]@);
        }
    }
    match &tokens[i] {
        ParseToken::String(s) => {
            if i + 1 >= tokens.len() {
                return Err(ParseError::UnexpectedEnd);
            }
            match &tokens[i + 1] {
                ParseToken::RepeatSpecial(c, m) => {
                    if *c != '*' {
                        return Err(ParseError::UnexpectedChar(*c));
                    }
                    if *m == n {
                        let item = if n <= 1 {
                            Item::Italic(s.clone())
                        } else if n == 2 {
                            Item::Bold(s.clone())
                        } else {
                            Item::BoldItalic(s.clone())
                        };
                        Ok((item, i + 2))
                    } else if *m < n {
                        Err(ParseError::UnexpectedEnd)
                    } else {
                        Err(ParseError::UnexpectedChar('*'))
                    }
                },
                other => Err(other.to_err()),
            }
        },
        ParseToken::RepeatSpecial(c, _) => Err(ParseError::UnexpectedChar(*c)),
        other => Err(other.to_err()),
    }
}

impl Item {
    /// Parses an item from the front of a token sequence; on success
    /// also returns how many tokens it consumed.
    pub fn parse(tokens: &Vec<ParseToken>) -> (r: Result<(Item, usize), ParseError>)
        ensures
            r matches Ok(p) ==> spec_parse_item(toks_of(tokens@), 0) == Ok::<_, ParseErrorV>(
                (p.0@, p.1 as int),
            ) && p.1 <= tokens@.len(),
            r matches Err(e) ==> spec_parse_item(toks_of(tokens@), 0) == Err::<
                (ItemV, int),
                _,
            >(e@),
    {
        let ghost toks = toks_of(tokens@);
        let n = tokens.len();
        let mut i: usize = 0;
        let mut done = false;
        while i < n && !done
            invariant
                i <= n,
                n == tokens@.len(),
                toks == toks_of(tokens@),
                spec_parse_item(toks, 0) == spec_parse_item(toks, i as int),
                done ==> i < n && !is_space_tok(toks[i as int]),
            decreases n - i + (if done { 0int } else { 1int }),
        {
            proof {
                assert(toks[i as int] == tokens@[i as int]@);
            }
            let is_space = match &tokens[i] {
                ParseToken::RepeatSpecial(c, _) => *c == ' ',
                _ => false,
            };
            if is_space {
                i += 1;
            } else {
                done = true;
            }
        }
        if i >= n {
            return Err(ParseError::EmptyDocument);
        }
        proof {
            assert(toks[i as int] == tokens@[i as int]@);
        }
        match &tokens[i] {
            ParseToken::RepeatSpecial(c, k) => {
                if *c == '!' && *k == 1 {
                    process_link_item(tokens, i + 1, true)
                } else if *c == '[' && *k == 1 {
                    process_link_item(tokens, i + 1, false)
                } else if *c == '*' {
                    parse_emphasis(tokens, i + 1, *k)
                } else {
                    Err(ParseError::UnexpectedChar(*c))
                }
            },
            ParseToken::String(s) => Err(ParseError::UnexpectedString(s.clone())),
            other => Err(other.to_err()),
        }
    }

    /// Parses a string that must be exactly one item.
    pub fn parse_str(s: &str) -> (r: Result<Item, ParseError>)
        ensures
            r matches Ok(v) ==> spec_item_from_str(s@) == Ok::<_, ParseErrorV>(v@),
            r matches Err(e) ==> spec_item_from_str(s@) == Err::<ItemV, _>(e@),
    {
        let tokens = tokenize(s);
        match Self::parse(&tokens) {
            Ok((v, i)) => if i == tokens.len() {
                Ok(v)
            } else {
                proof {
                    assert(toks_of(tokens@)[i as int] == tokens@[i as int]@);
                }
                Err(tokens[i].to_err())
            },
            Err(e) => Err(e),
        }
    }

    /// The item's serialization: its payload between matching emphasis
    /// runs, or the link written out.
    pub fn to_string(&self) -> (r: String)
        ensures
            r@ == spec_serialize_item(self@),
    {
        match self {
            Item::Def(s) => s.clone(),
            Item::Italic(s) => wrap_marks(s, 1),
            Item::Bold(s) => wrap_marks(s, 2),
            Item::BoldItalic(s) => wrap_marks(s, 3),
            Item::Link(l) => {
                let mut out = String::new();
                if l.img {
                    push_char(&mut out, '!');
                }
                push_char(&mut out, '[');
                out.append(l.name.as_str());
                push_char(&mut out, ']');
                push_char(&mut out, '(');
                let srctext = l.src.to_string();
                out.append(srctext.as_str());
                push_char(&mut out, ')');
                proof {
                    assert(out@ =~= spec_serialize_item(self@));
                }
                out
            },
        }
    }
}

/// The payload `s` between two emphasis runs of `k` markers.
fn wrap_marks(s: &String, k: usize) -> (r: String)
    ensures
        r@ == repeat_char('*', k as nat) + s@ + repeat_char('*', k as nat),
{
    let mut out = repeat_string('*', k);
    out.append(s.as_str());
    let closing = repeat_string('*', k);
    out.append(closing.as_str());
    out
}

impl std::str::FromStr for Item {
    type Err = ParseError;

    fn from_str(s: &str) -> Result<Item, ParseError> {
        Item::parse_str(s)
    }
}

/// A reference definition: a symbolic name, its target URL, and an
/// optional title.
#[derive(Debug, Clone, PartialEq, Eq)]
pub struct Reference {
    pub name: String,
    pub title: String,
    pub href: crate::url_value::Url,
}

/// The abstract value of a reference definition.
pub ghost struct RefV {
    pub name: Seq<char>,
    pub title: Seq<char>,
    pub href: Seq<char>,
}

impl View for Reference {
    type V = RefV;

    open spec fn view(&self) -> RefV {
        RefV { name: self.name@, title: self.title@, href: self.href@ }
    }
}

/// A structural character whose runs may stand in a reference name.
pub open spec fn allowed_name_run(c: char) -> bool {
    crate::token::is_digit(c) || c == '!' || c == '?' || c == '.' || c == ',' || c == ';'
        || c == ':' || c == '\'' || c == '"'
}

/// The name of a reference definition, accumulated up to the closing
/// bracket; only text, numbers and allow-listed punctuation runs may
/// stand in it, and it must not be empty.
pub open spec fn spec_ref_name(toks: Seq<TokV>, i: int, acc: Seq<char>) -> Result<
    (RefV, int),
    ParseErrorV,
>
    decreases toks.len() - i,
{
    if i >= toks.len() {
        Err(ParseErrorV::UnexpectedEnd)
    } else {
        match toks[i] {
            TokV::Str(s) => spec_ref_name(toks, i + 1, acc + s),
            TokV::Number(p, f) => spec_ref_name(toks, i + 1, acc + crate::token::num_text(p, f)),
            TokV::RepeatSpecial(c, k) => if c == ']' && k == 1 {
                if acc.len() == 0 {
                    Err(ParseErrorV::UnexpectedChar(']'))
                } else {
                    spec_ref_after_name(toks, i + 1, acc)
                }
            } else if allowed_name_run(c) {
                spec_ref_name(toks, i + 1, acc + repeat_char(c, k))
            } else {
                Err(ParseErrorV::UnexpectedChar(c))
            },
        }
    }
}

/// After the name: a colon, an optional space, then the target, either
/// between angle brackets (it may then contain spaces and runs until
/// the mandatory `>`) or bare (the first space run ends it).
pub open spec fn spec_ref_after_name(toks: Seq<TokV>, i: int, name: Seq<char>) -> Result<
    (RefV, int),
    ParseErrorV,
> {
    match spec_expect_run1(toks, i, ':') {
        Err(e) => Err(e),
        Ok(i1) => if i1 >= toks.len() {
            Err(ParseErrorV::UnexpectedEnd)
        } else {
            let i2: int = if is_space_tok(toks[i1]) {
                i1 + 1
            } else {
                i1
            };
            if i2 >= toks.len() {
                Err(ParseErrorV::UnexpectedEnd)
            } else {
                let bracketed = toks[i2] == TokV::RepeatSpecial('<', 1);
                let target = if bracketed {
                    spec_ref_url_bracketed(toks, i2 + 1, seq![])
                } else {
                    spec_ref_url_plain(toks, i2, seq![])
                };
                match target {
                    Err(e) => Err(e),
                    Ok((u, i3)) => match crate::url_value::url_norm(u) {
                        Option::None => Err(ParseErrorV::InvalidUrl),
                        Some(t) => match spec_ref_title(toks, i3) {
                            Err(e) => Err(e),
                            Ok((title, i4)) => Ok((RefV { name, title, href: t }, i4)),
                        },
                    },
                }
            }
        },
    }
}

/// A bracketed target: token texts accumulate, spaces included, until
/// the mandatory closing `>`.
pub open spec fn spec_ref_url_bracketed(toks: Seq<TokV>, i: int, acc: Seq<char>) -> Result<
    (Seq<char>, int),
    ParseErrorV,
>
    decreases toks.len() - i,
{
    if i >= toks.len() {
        Err(ParseErrorV::UnexpectedEnd)
    } else if toks[i] == TokV::RepeatSpecial('>', 1) {
        Ok((acc, i + 1))
    } else {
        spec_ref_url_bracketed(toks, i + 1, acc + tok_text(toks[i]))
    }
}

/// A bare target: token texts accumulate until the end of the input or
/// the first space run, which is consumed; a stray `>` is refused.
pub open spec fn spec_ref_url_plain(toks: Seq<TokV>, i: int, acc: Seq<char>) -> Result<
    (Seq<char>, int),
    ParseErrorV,
>
    decreases toks.len() - i,
{
    if i >= toks.len() {
        Ok((acc, i))
    } else if is_space_tok(toks[i]) {
        Ok((acc, i + 1))
    } else if toks[i] == TokV::RepeatSpecial('>', 1) {
        Err(ParseErrorV::UnexpectedChar('>'))
    } else {
        spec_ref_url_plain(toks, i + 1, acc + tok_text(toks[i]))
    }
}

/// The optional title after the target: nothing (the title is empty),
/// or, after at most one space run, a quoted or a parenthesized text
/// accumulated to its matching terminator.
pub open spec fn spec_ref_title(toks: Seq<TokV>, i: int) -> Result<(Seq<char>, int), ParseErrorV> {
    if i >= toks.len() {
        Ok((seq![], i))
    } else {
        let i1: int = if is_space_tok(toks[i]) {
            i + 1
        } else {
            i
        };
        if i1 >= toks.len() {
            Err(ParseErrorV::UnexpectedEnd)
        } else if toks[i1] == TokV::RepeatSpecial('"', 1) {
            spec_title_until(toks, i1 + 1, '"', seq![])
        } else if toks[i1] == TokV::RepeatSpecial('(', 1) {
            spec_title_until(toks, i1 + 1, ')', seq![])
        } else {
            Err(err_of_tok(toks[i1]))
        }
    }
}

/// A delimited title: token texts accumulate until the terminator.
pub open spec fn spec_title_until(toks: Seq<TokV>, i: int, term: char, acc: Seq<char>) -> Result<
    (Seq<char>, int),
    ParseErrorV,
>
    decreases toks.len() - i,
{
    if i >= toks.len() {
        Err(ParseErrorV::UnexpectedEnd)
    } else if toks[i] == TokV::RepeatSpecial(term, 1) {
        Ok((acc, i + 1))
    } else {
        spec_title_until(toks, i + 1, term, acc + tok_text(toks[i]))
    }
}

/// The reference grammar: an opening bracket, the name, and the rest.
pub open spec fn spec_parse_reference(toks: Seq<TokV>) -> Result<(RefV, int), ParseErrorV> {
    if toks.len() == 0 {
        Err(ParseErrorV::EmptyDocument)
    } else {
        match toks[0] {
            TokV::RepeatSpecial(c, k) => if c == '[' && k == 1 {
                spec_ref_name(toks, 1, seq![])
            } else {
                Err(ParseErrorV::UnexpectedChar(c))
            },
            _ => Err(err_of_tok(toks[0])),
        }
    }
}

/// The serialization of a reference definition: the name in brackets,
/// a colon and a space, the target in angle brackets, and the title in
/// parentheses when there is one.
pub open spec fn spec_serialize_reference(v: RefV) -> Seq<char> {
    seq!['['] + v.name + seq![']', ':', ' ', '<'] + v.href + seq!['>'] + (if v.title.len() > 0 {
        seq!['('] + v.title + seq![')']
    } else {
        Seq::<char>::empty()
    })
}

/// A whole-input reference parse: tokenize, parse, and refuse trailing
/// tokens.
pub open spec fn spec_reference_from_str(s: Seq<char>) -> Result<RefV, ParseErrorV> {
    spec_finish(spec_parse_reference(spec_tokenize(s)), spec_tokenize(s))
}

/// Accumulates a reference name up to its closing bracket, then hands
/// off to the rest of the grammar.
fn ref_name(tokens: &Vec<ParseToken>, i: usize, acc: String) -> (r: Result<
    (Reference, usize),
    ParseError,
>)
    requires
        i <= tokens@.len(),
    ensures
        r matches Ok(p) ==> spec_ref_name(toks_of(tokens@), i as int, acc@) == Ok::<
            _,
            ParseErrorV,
        >((p.0@, p.1 as int)) && p.1 <= tokens@.len(),
        r matches Err(e) ==> spec_ref_name(toks_of(tokens@), i as int, acc@) == Err::<
            (RefV, int),
            _,
        >(e@),
    decreases tokens@.len() - i,
{
    if i >= tokens.len() {
        return Err(ParseError::UnexpectedEnd);
    }
    proof {
        assert(toks_of(tokens@)[i as int] == tokens@[i as int]@);
    }
    match &tokens[i] {
        ParseToken::String(s) => {
            let mut acc2 = acc;
            acc2.append(s.as_str());
            ref_name(tokens, i + 1, acc2)
        },
        ParseToken::Number(_, _) => {
            let piece = tokens[i].to_string();
            let mut acc2 = acc;
            acc2.append(piece.as_str());
            ref_name(tokens, i + 1, acc2)
        },
        ParseToken::RepeatSpecial(c, k) => {
            if *c == ']' && *k == 1 {
                if acc.as_str().is_empty() {
                    Err(ParseError::UnexpectedChar(']'))
                } else {
                    ref_after_name(tokens, i + 1, acc)
                }
            } else {
                let cu = *c as u32;
                let allowed = (48 <= cu && cu <= 57) || *c == '!' || *c == '?' || *c == '.'
                    || *c == ',' || *c == ';' || *c == ':' || *c == '\'' || *c == '"';
                if allowed {
                    let piece = tokens[i].to_string();
                    let mut acc2 = acc;
                    acc2.append(piece.as_str());
                    ref_name(tokens, i + 1, acc2)
                } else {
                    Err(ParseError::UnexpectedChar(*c))
                }
            }
        },
    }
}

/// Parses the colon, the target and the title after a reference name.
fn ref_after_name(tokens: &Vec<ParseToken>, i: usize, name: String) -> (r: Result<
    (Reference, usize),
    ParseError,
>)
    requires
        i <= tokens@.len(),
    ensures
        r matches Ok(p) ==> spec_ref_after_name(toks_of(tokens@), i as int, name@) == Ok::<
            _,
            ParseErrorV,
        >((p.0@, p.1 as int)) && p.1 <= tokens@.len(),
        r matches Err(e) ==> spec_ref_after_name(toks_of(tokens@), i as int, name@) == Err::<
            (RefV, int),
            _,
        >(e@),
{
    let ghost toks = toks_of(tokens@);
    let n = tokens.len();
    let i1 = match expect_run1(tokens, i, ':') {
        Ok(j) => j,
        Err(e) => {
            return Err(e);
        },
    };
    if i1 >= n {
        return Err(ParseError::UnexpectedEnd);
    }
    proof {
        assert(toks[i1 as int] == tokens@[i1 as int]@);
    }
    let skip_space = match &tokens[i1] {
        ParseToken::RepeatSpecial(c, _) => *c == ' ',
        _ => false,
    };
    let i2 = if skip_space {
        i1 + 1
    } else {
        i1
    };
    if i2 >= n {
        return Err(ParseError::UnexpectedEnd);
    }
    proof {
        assert(toks[i2 as int] == tokens@[i2 as int]@);
    }
    let bracketed = match &tokens[i2] {
        ParseToken::RepeatSpecial(c, k) => *c == '<' && *k == 1,
        _ => false,
    };
    let target = if bracketed {
        ref_url_bracketed(tokens, i2 + 1, String::new())
    } else {
        ref_url_plain(tokens, i2, String::new())
    };
    let (u, i3) = match target {
        Ok(p) => p,
        Err(e) => {
            return Err(e);
        },
    };
    let href = match crate::url_value::Url::parse(u.as_str()) {
        Ok(h) => h,
        Err(e) => {
            return Err(e);
        },
    };
    let (title, i4) = match ref_title(tokens, i3) {
        Ok(p) => p,
        Err(e) => {
            return Err(e);
        },
    };
    Ok((Reference { name, title, href }, i4))
}

/// Accumulates a bracketed target up to its `>`.
fn ref_url_bracketed(tokens: &Vec<ParseToken>, i: usize, acc: String) -> (r: Result<
    (String, usize),
    ParseError,
>)
    requires
        i <= tokens@.len(),
    ensures
        r matches Ok(p) ==> spec_ref_url_bracketed(toks_of(tokens@), i as int, acc@) == Ok::<
            _,
            ParseErrorV,
        >((p.0@, p.1 as int)) && p.1 <= tokens@.len(),
        r matches Err(e) ==> spec_ref_url_bracketed(toks_of(tokens@), i as int, acc@) == Err::<
            (Seq<char>, int),
            _,
        >(e@),
    decreases tokens@.len() - i,
{
    if i >= tokens.len() {
        return Err(ParseError::UnexpectedEnd);
    }
    proof {
        assert(toks_of(tokens@)[i as int] == tokens@[i as int]@);
    }
    let is_close = match &tokens[i] {
        ParseToken::RepeatSpecial(c, k) => *c == '>' && *k == 1,
        _ => false,
    };
    if is_close {
        Ok((acc, i + 1))
    } else {
        let piece = tokens[i].to_string();
        let mut acc2 = acc;
        acc2.append(piece.as_str());
        ref_url_bracketed(tokens, i + 1, acc2)
    }
}

/// Accumulates a bare target up to the end or the first space run.
fn ref_url_plain(tokens: &Vec<ParseToken>, i: usize, acc: String) -> (r: Result<
    (String, usize),
    ParseError,
>)
    requires
        i <= tokens@.len(),
    ensures
        r matches Ok(p) ==> spec_ref_url_plain(toks_of(tokens@), i as int, acc@) == Ok::<
            _,
            ParseErrorV,
        >((p.0@, p.1 as int)) && p.1 <= tokens@.len(),
        r matches Err(e) ==> spec_ref_url_plain(toks_of(tokens@), i as int, acc@) == Err::<
            (Seq<char>, int),
            _,
        >(e@),
    decreases tokens@.len() - i,
{
    if i >= tokens.len() {
        return Ok((acc, i));
    }
    proof {
        assert(toks_of(tokens@)[i as int] == tokens@[i as int]@);
    }
    match &tokens[i] {
        ParseToken::RepeatSpecial(c, k) => {
            if *c == ' ' {
                return Ok((acc, i + 1));
            }
            if *c == '>' && *k == 1 {
                return Err(ParseError::UnexpectedChar('>'));
            }
        },
        _ => {},
    }
    let piece = tokens[i].to_string();
    let mut acc2 = acc;
    acc2.append(piece.as_str());
    ref_url_plain(tokens, i + 1, acc2)
}

/// Parses the optional title after the target.
fn ref_title(tokens: &Vec<ParseToken>, i: usize) -> (r: Result<(String, usize), ParseError>)
    requires
        i <= tokens@.len(),
    ensures
        r matches Ok(p) ==> spec_ref_title(toks_of(tokens@), i as int) == Ok::<_, ParseErrorV>(
            (p.0@, p.1 as int),
        ) && p.1 <= tokens@.len(),
        r matches Err(e) ==> spec_ref_title(toks_of(tokens@), i as int) == Err::<
            (Seq<char>, int),
            _,
        >(e@),
{
    let ghost toks = toks_of(tokens@);
    let n = tokens.len();
    if i >= n {
        return Ok((String::new(), i));
    }
    proof {
        assert(toks[i as int] == tokens@[i as int]@);
    }
    let skip_space = match &tokens[i] {
        ParseToken::RepeatSpecial(c, _) => *c == ' ',
        _ => false,
    };
    let i1 = if skip_space {
        i + 1
    } else {
        i
    };
    if i1 >= n {
        return Err(ParseError::UnexpectedEnd);
    }
    proof {
        assert(toks[i1 as int] == tokens@[i1 as int]@);
    }
    match &tokens[i1] {
        ParseToken::RepeatSpecial(c, k) => {
            if *c == '"' && *k == 1 {
                title_until(tokens, i1 + 1, '"', String::new())
            } else if *c == '(' && *k == 1 {
                title_until(tokens, i1 + 1, ')', String::new())
            } else {
                Err(ParseError::UnexpectedChar(*c))
            }
        },
        other => Err(other.to_err()),
    }
}

/// Accumulates a delimited title up to its terminator.
fn title_until(tokens: &Vec<ParseToken>, i: usize, term: char, acc: String) -> (r: Result<
    (String, usize),
    ParseError,
>)
    requires
        i <= tokens@.len(),
    ensures
        r matches Ok(p) ==> spec_title_until(toks_of(tokens@), i as int, term, acc@) == Ok::<
            _,
            ParseErrorV,
        >((p.0@, p.1 as int)) && p.1 <= tokens@.len(),
        r matches Err(e) ==> spec_title_until(toks_of(tokens@), i as int, term, acc@) == Err::<
            (Seq<char>, int),
            _,
        >(e@),
    decreases tokens@.len() - i,
{
    if i >= tokens.len() {
        return Err(ParseError::UnexpectedEnd);
    }
    proof {
        assert(toks_of(tokens@)[i as int] == tokens@[i as int]@);
    }
    let is_close = match &tokens[i] {
        ParseToken::RepeatSpecial(c, k) => *c == term && *k == 1,
        _ => false,
    };
    if is_close {
        Ok((acc, i + 1))
    } else {
        let piece = tokens[i].to_string();
        let mut acc2 = acc;
        acc2.append(piece.as_str());
        title_until(tokens, i + 1, term, acc2)
    }
}

impl Reference {
    /// Parses a reference definition from the front of a token
    /// sequence; on success also returns how many tokens it consumed.
    pub fn parse(tokens: &Vec<ParseToken>) -> (r: Result<(Reference, usize), ParseError>)
        ensures
            r matches Ok(p) ==> spec_parse_reference(toks_of(tokens@)) == Ok::<_, ParseErrorV>(
                (p.0@, p.1 as int),
            ) && p.1 <= tokens@.len(),
            r matches Err(e) ==> spec_parse_reference(toks_of(tokens@)) == Err::<
                (RefV, int),
                _,
            >(e@),
    {
        if tokens.len() == 0 {
            return Err(ParseError::EmptyDocument);
        }
        proof {
            assert(toks_of(tokens@)[0] == tokens@[0]@);
        }
        match &tokens[0] {
            ParseToken::RepeatSpecial(c, k) => {
                if *c == '[' && *k == 1 {
                    ref_name(tokens, 1, String::new())
                } else {
                    Err(ParseError::UnexpectedChar(*c))
                }
            },
            other => Err(other.to_err()),
        }
    }

    /// Parses a string that must be exactly one reference definition.
    pub fn parse_str(s: &str) -> (r: Result<Reference, ParseError>)
        ensures
            r matches Ok(v) ==> spec_reference_from_str(s@) == Ok::<_, ParseErrorV>(v@),
            r matches Err(e) ==> spec_reference_from_str(s@) == Err::<RefV, _>(e@),
    {
        let tokens = tokenize(s);
        match Self::parse(&tokens) {
            Ok((v, i)) => if i == tokens.len() {
                Ok(v)
            } else {
                proof {
                    assert(toks_of(tokens@)[i as int] == tokens@[i as int]@);
                }
                Err(tokens[i].to_err())
            },
            Err(e) => Err(e),
        }
    }

    /// The reference's serialization: name in brackets, target in
    /// angle brackets, title in parentheses when there is one.
    pub fn to_string(&self) -> (r: String)
        ensures
            r@ == spec_serialize_reference(self@),
    {
        let mut out = String::new();
        push_char(&mut out, '[');
        out.append(self.name.as_str());
        push_char(&mut out, ']');
        push_char(&mut out, ':');
        push_char(&mut out, ' ');
        push_char(&mut out, '<');
        out.append(self.href.as_str());
        push_char(&mut out, '>');
        if !self.title.as_str().is_empty() {
            push_char(&mut out, '(');
            out.append(self.title.as_str());
            push_char(&mut out, ')');
        }
        proof {
            assert(out@ =~= spec_serialize_reference(self@));
        }
        out
    }
}

impl std::str::FromStr for Reference {
    type Err = ParseError;

    fn from_str(s: &str) -> Result<Reference, ParseError> {
        Reference::parse_str(s)
    }
}

/// Builds a reference definition from named fields; the name and the
/// target must be set.
#[derive(Debug, Clone, PartialEq, Eq)]
pub struct ReferenceBuilder {
    name: String,
    href: Option<crate::url_value::Url>,
    title: String,
}

/// The abstract value of a reference builder.
pub ghost struct ReferenceBuilderV {
    pub name: Seq<char>,
    pub href: Option<Seq<char>>,
    pub title: Seq<char>,
}

impl View for ReferenceBuilder {
    type V = ReferenceBuilderV;

    closed spec fn view(&self) -> ReferenceBuilderV {
        ReferenceBuilderV {
            name: self.name@,
            href: match &self.href {
                Some(u) => Some(u@),
                Option::None => Option::None,
            },
            title: self.title@,
        }
    }
}

impl Default for ReferenceBuilder {
    fn default() -> (r: Self)
        ensures
            r@.name.len() == 0,
            r@.href is None,
            r@.title.len() == 0,
    {
        ReferenceBuilder { name: String::new(), href: Option::None, title: String::new() }
    }
}

impl ReferenceBuilder {
    /// Replaces the name.
    pub fn name(self, s: &str) -> (r: Self)
        ensures
            r@.name == s@,
            r@.href == self@.href,
            r@.title == self@.title,
    {
        ReferenceBuilder { name: s.to_owned(), href: self.href, title: self.title }
    }

    /// Replaces the title.
    pub fn title(self, s: &str) -> (r: Self)
        ensures
            r@.title == s@,
            r@.name == self@.name,
            r@.href == self@.href,
    {
        ReferenceBuilder { name: self.name, href: self.href, title: s.to_owned() }
    }

    /// Replaces the target.
    pub fn href(self, u: crate::url_value::Url) -> (r: Self)
        ensures
            r@.href == Some(u@),
            r@.name == self@.name,
            r@.title == self@.title,
    {
        ReferenceBuilder { name: self.name, href: Some(u), title: self.title }
    }

    /// The finished reference; a missing target or an empty name is
    /// incomplete data.
    pub fn build(self) -> (r: Result<Reference, Error>)
        ensures
            r is Ok <==> self@.href is Some && self@.name.len() > 0,
            r matches Ok(v) ==> v@.name == self@.name && v@.title == self@.title && Some(v@.href)
                == self@.href,
            r matches Err(e) ==> e == Error::IncompleteData,
    {
        let href = match self.href {
            Some(u) => u,
            Option::None => {
                return Err(Error::IncompleteData);
            },
        };
        if self.name.as_str().is_empty() {
            return Err(Error::IncompleteData);
        }
        Ok(Reference { name: self.name, title: self.title, href })
    }
}

/// Builds an inline item by toggling emphasis around its content.
#[derive(Debug, Clone, PartialEq, Eq)]
pub enum ItemBuilder {
    Bold(String),
    BoldItalic(String),
    Def(String),
    Italic(String),
    Link(Link),
    Undefined,
}

/// The abstract value of an item builder.
pub ghost enum ItemBuilderV {
    Bold(Seq<char>),
    BoldItalic(Seq<char>),
    Def(Seq<char>),
    Italic(Seq<char>),
    Link(LinkV),
    Undefined,
}

impl View for ItemBuilder {
    type V = ItemBuilderV;

    open spec fn view(&self) -> ItemBuilderV {
        match self {
            ItemBuilder::Bold(s) => ItemBuilderV::Bold(s@),
            ItemBuilder::BoldItalic(s) => ItemBuilderV::BoldItalic(s@),
            ItemBuilder::Def(s) => ItemBuilderV::Def(s@),
            ItemBuilder::Italic(s) => ItemBuilderV::Italic(s@),
            ItemBuilder::Link(l) => ItemBuilderV::Link(l@),
            ItemBuilder::Undefined => ItemBuilderV::Undefined,
        }
    }
}

/// One bold toggle on a builder state.
pub open spec fn spec_builder_bold(v: ItemBuilderV) -> ItemBuilderV {
    match v {
        ItemBuilderV::Bold(s) => ItemBuilderV::Def(s),
        ItemBuilderV::BoldItalic(s) => ItemBuilderV::Italic(s),
        ItemBuilderV::Italic(s) => ItemBuilderV::BoldItalic(s),
        ItemBuilderV::Def(s) => ItemBuilderV::Bold(s),
        _ => ItemBuilderV::Undefined,
    }
}

/// One italic toggle on a builder state.
pub open spec fn spec_builder_italic(v: ItemBuilderV) -> ItemBuilderV {
    match v {
        ItemBuilderV::Bold(s) => ItemBuilderV::BoldItalic(s),
        ItemBuilderV::BoldItalic(s) => ItemBuilderV::Bold(s),
        ItemBuilderV::Italic(s) => ItemBuilderV::Def(s),
        ItemBuilderV::Def(s) => ItemBuilderV::Italic(s),
        _ => ItemBuilderV::Undefined,
    }
}

impl ItemBuilder {
    /// Toggles bold emphasis.
    pub fn bold(self) -> (r: Self)
        ensures
            r@ == spec_builder_bold(self@),
    {
        match self {
            Self::Bold(s) => Self::Def(s),
            Self::BoldItalic(s) => Self::Italic(s),
            Self::Italic(s) => Self::BoldItalic(s),
            Self::Def(s) => Self::Bold(s),
            _ => Self::Undefined,
        }
    }

    /// Toggles italic emphasis.
    pub fn italic(self) -> (r: Self)
        ensures
            r@ == spec_builder_italic(self@),
    {
        match self {
            Self::Bold(s) => Self::BoldItalic(s),
            Self::BoldItalic(s) => Self::Bold(s),
            Self::Italic(s) => Self::Def(s),
            Self::Def(s) => Self::Italic(s),
            _ => Self::Undefined,
        }
    }

    /// Makes the item a link.
    pub fn link(self, l: Link) -> (r: Self)
        ensures
            r@ == ItemBuilderV::Link(l@),
    {
        Self::Link(l)
    }

    /// Replaces the content, keeping the emphasis set so far; on a
    /// link or an unset builder the content becomes plain text.
    pub fn content(self, s: String) -> (r: Self)
        ensures
            r@ == spec_builder_content(self@, s@),
    {
        match self {
            Self::Bold(_) => Self::Bold(s),
            Self::BoldItalic(_) => Self::BoldItalic(s),
            Self::Italic(_) => Self::Italic(s),
            _ => Self::Def(s),
        }
    }

    /// The finished item; an unset builder is incomplete data.
    pub fn build(self) -> (r: Result<Item, Error>)
        ensures
            r is Err <==> self@ is Undefined,
            r matches Ok(v) ==> v@ == spec_builder_item(self@),
            r matches Err(e) ==> e == Error::IncompleteData,
    {
        match self {
            Self::Bold(s) => Ok(Item::Bold(s)),
            Self::BoldItalic(s) => Ok(Item::BoldItalic(s)),
            Self::Def(s) => Ok(Item::Def(s)),
            Self::Italic(s) => Ok(Item::Italic(s)),
            Self::Link(l) => Ok(Item::Link(l)),
            Self::Undefined => Err(Error::IncompleteData),
        }
    }
}

/// A builder's content replaced by `s`.
pub open spec fn spec_builder_content(v: ItemBuilderV, s: Seq<char>) -> ItemBuilderV {
    match v {
        ItemBuilderV::Bold(_) => ItemBuilderV::Bold(s),
        ItemBuilderV::BoldItalic(_) => ItemBuilderV::BoldItalic(s),
        ItemBuilderV::Italic(_) => ItemBuilderV::Italic(s),
        _ => ItemBuilderV::Def(s),
    }
}

/// The item a finished builder stands for.
pub open spec fn spec_builder_item(v: ItemBuilderV) -> ItemV
    recommends
        !(v is Undefined),
{
    match v {
        ItemBuilderV::Bold(s) => ItemV::Bold(s),
        ItemBuilderV::BoldItalic(s) => ItemV::BoldItalic(s),
        ItemBuilderV::Def(s) => ItemV::Def(s),
        ItemBuilderV::Italic(s) => ItemV::Italic(s),
        ItemBuilderV::Link(l) => ItemV::Link(l),
        ItemBuilderV::Undefined => ItemV::Def(Seq::empty()),
    }
}

impl Default for ItemBuilder {
    fn default() -> (r: Self)
        ensures
            r@ is Undefined,
    {
        ItemBuilder::Undefined
    }
}

/// Builds a link from named fields; the name must not be empty, nor
/// the reference name when the target is a reference.
#[derive(Debug, Clone, PartialEq, Eq)]
pub struct LinkBuilder {
    name: String,
    src: LinkSource,
    img: bool,
}

/// The abstract value of a link builder.
pub ghost struct LinkBuilderV {
    pub name: Seq<char>,
    pub src: LinkSrcV,
    pub img: bool,
}

impl View for LinkBuilder {
    type V = LinkBuilderV;

    closed spec fn view(&self) -> LinkBuilderV {
        LinkBuilderV { name: self.name@, src: self.src@, img: self.img }
    }
}

impl Default for LinkBuilder {
    fn default() -> (r: Self)
        ensures
            r@.name.len() == 0,
            r@.src is Unset,
            r@.img == false,
    {
        LinkBuilder { name: String::new(), src: LinkSource::Unset, img: false }
    }
}

impl LinkBuilder {
    /// Replaces the name.
    pub fn name(self, name: String) -> (r: Self)
        ensures
            r@.name == name@,
            r@.src == self@.src,
            r@.img == self@.img,
    {
        LinkBuilder { name, src: self.src, img: self.img }
    }

    /// Appends one character to the name.
    pub fn name_push(&mut self, c: char)
        ensures
            final(self)@.name == old(self)@.name.push(c),
            final(self)@.src == old(self)@.src,
            final(self)@.img == old(self)@.img,
    {
        push_char(&mut self.name, c);
    }

    /// Appends text to the name.
    pub fn name_push_str(&mut self, s: &str)
        ensures
            final(self)@.name == old(self)@.name + s@,
            final(self)@.src == old(self)@.src,
            final(self)@.img == old(self)@.img,
    {
        self.name.append(s);
    }

    /// Points the link at a URL.
    pub fn href(self, href: crate::url_value::Url) -> (r: Self)
        ensures
            r@.src == LinkSrcV::Url(href@),
            r@.name == self@.name,
            r@.img == self@.img,
    {
        LinkBuilder { name: self.name, src: LinkSource::Url(href), img: self.img }
    }

    /// Points the link at a reference, by its name.
    pub fn reference(self, r0: Reference) -> (r: Self)
        ensures
            r@.src == LinkSrcV::Ref(r0@.name),
            r@.name == self@.name,
            r@.img == self@.img,
    {
        LinkBuilder { name: self.name, src: LinkSource::Ref(r0.name), img: self.img }
    }

    /// Marks the link as an image.
    pub fn make_img(self) -> (r: Self)
        ensures
            r@.img == true,
            r@.name == self@.name,
            r@.src == self@.src,
    {
        LinkBuilder { name: self.name, src: self.src, img: true }
    }

    /// The finished link; an empty name, or an empty reference name,
    /// is incomplete data.
    pub fn build(self) -> (r: Result<Link, Error>)
        ensures
            r is Ok <==> self@.name.len() > 0 && !(self@.src matches LinkSrcV::Ref(s)
                && s.len() == 0),
            r matches Ok(l) ==> l@.name == self@.name && l@.src == self@.src && l@.img
                == self@.img,
            r matches Err(e) ==> e == Error::IncompleteData,
    {
        if self.name.as_str().is_empty() {
            return Err(Error::IncompleteData);
        }
        match &self.src {
            LinkSource::Ref(s) => {
                if s.as_str().is_empty() {
                    return Err(Error::IncompleteData);
                }
            },
            _ => {},
        }
        Ok(Link { name: self.name, src: self.src, img: self.img })
    }
}

/// Emphasis toggle closure: for an opening run of `n` markers (1
/// through 3) around one text run, the closing run must equal `n`
/// exactly; a longer close is a stray marker, a shorter close an
/// unterminated item.
pub proof fn lemma_emphasis_toggle_closure(s: Seq<char>, n: nat, m: nat)
    requires
        1 <= n <= 3,
        m >= 1,
    ensures
        ({
            let toks = seq![
                TokV::RepeatSpecial('*', n),
                TokV::Str(s),
                TokV::RepeatSpecial('*', m),
            ];
            spec_parse_item(toks, 0) == if m == n {
                Ok::<_, ParseErrorV>((item_of_runlen(n, s), 3int))
            } else if m < n {
                Err(ParseErrorV::UnexpectedEnd)
            } else {
                Err(ParseErrorV::UnexpectedChar('*'))
            }
        }),
{
    let toks = seq![TokV::RepeatSpecial('*', n), TokV::Str(s), TokV::RepeatSpecial('*', m)];
    assert(toks[0] == TokV::RepeatSpecial('*', n));
    assert(toks[1] == TokV::Str(s));
    assert(toks[2] == TokV::RepeatSpecial('*', m));
}

/// Round trip for emphasis items: an italic, bold or bold-italic item
/// whose payload is one text run parses back from its serialization
/// unchanged. Payloads of parsed items always are single text runs.
pub proof fn lemma_item_round_trip(v: ItemV)
    requires
        (v matches ItemV::Italic(s) && crate::token::text_like(s)) || (v
            matches ItemV::Bold(s) && crate::token::text_like(s)) || (v
            matches ItemV::BoldItalic(s) && crate::token::text_like(s)),
    ensures
        spec_item_from_str(spec_serialize_item(v)) == Ok::<ItemV, ParseErrorV>(v),
{
    let k: nat = match v {
        ItemV::Italic(_) => 1,
        ItemV::Bold(_) => 2,
        _ => 3,
    };
    let s = match v {
        ItemV::Italic(t) => t,
        ItemV::Bold(t) => t,
        ItemV::BoldItalic(t) => t,
        _ => seq![],
    };
    let a = repeat_char('*', k);
    let mid = s + a;
    let full = spec_serialize_item(v);
    assert(full =~= a + mid);
    crate::token::lemma_scan_run('*', k);
    crate::token::lemma_scan_text(s);
    assert(mid[0] == s[0]);
    crate::token::lemma_tokenize_split(a, mid);
    crate::token::lemma_tokenize_split(s, a);
    crate::token::lemma_tokenize_run('*', k);
    crate::token::lemma_tokenize_text(s);
    let toks = spec_tokenize(full);
    assert(toks =~= seq![
        TokV::RepeatSpecial('*', k),
        TokV::Str(s),
        TokV::RepeatSpecial('*', k),
    ]);
    lemma_emphasis_toggle_closure(s, k, k);
    assert(spec_parse_item(toks, 0) == Ok::<_, ParseErrorV>((item_of_runlen(k, s), 3int)));
    assert(item_of_runlen(k, s) == v);
}

/// Round trip for headings: a heading whose content is nonempty, does
/// not begin with a space, and retokenizes to itself parses back from
/// its serialization unchanged. `lemma_heading_parse_round_trip` shows
/// that every parsed heading has these properties.
pub proof fn lemma_heading_round_trip(h: HeadingV)
    requires
        h.content.len() > 0,
        h.content[0] != ' ',
        crate::token::stable_text(h.content),
    ensures
        spec_heading_from_str(spec_serialize_heading(h)) == Ok::<HeadingV, ParseErrorV>(h),
{
    let lvl = lvl_num(h.level);
    let a = repeat_char('#', lvl);
    let b = repeat_char(' ', 1);
    let mid = b + h.content;
    let full = spec_serialize_heading(h);
    assert(seq![' '] =~= b);
    assert(full =~= a + mid);
    crate::token::lemma_scan_run('#', lvl);
    crate::token::lemma_scan_run(' ', 1);
    assert(mid[0] == ' ');
    crate::token::lemma_tokenize_split(a, mid);
    assert(h.content[0] != ' ');
    crate::token::lemma_tokenize_split(b, h.content);
    crate::token::lemma_tokenize_run('#', lvl);
    crate::token::lemma_tokenize_run(' ', 1);
    crate::token::lemma_tokenize_nonempty(h.content);
    let t = spec_tokenize(h.content);
    let toks = spec_tokenize(full);
    assert(toks =~= seq![TokV::RepeatSpecial('#', lvl), TokV::RepeatSpecial(' ', 1)] + t);
    assert(toks[0] == TokV::RepeatSpecial('#', lvl));
    assert(toks[1] == TokV::RepeatSpecial(' ', 1));
    assert(toks.len() >= 3);
    assert(toks.subrange(2, toks.len() as int) =~= t);
    assert(level_of(lvl) == h.level);
    assert(spec_parse_heading(toks) == Ok::<_, ParseErrorV>(
        (HeadingV { level: h.level, content: h.content }, toks.len() as int),
    ));
    assert(HeadingV { level: h.level, content: h.content } == h);
}

/// A token a link target may hold without closing it.
pub open spec fn target_ok_tok(t: TokV) -> bool {
    t != TokV::RepeatSpecial(')', 1)
}

/// A link-target accumulation over acceptable tokens collects exactly
/// their texts and stops at the closing parenthesis.
pub proof fn lemma_target_accum(toks: Seq<TokV>, i: int, e: int, acc: Seq<char>)
    requires
        0 <= i <= e < toks.len(),
        toks[e] == TokV::RepeatSpecial(')', 1),
        forall|j: int| i <= j < e ==> target_ok_tok(#[trigger] toks[j]),
    ensures
        spec_link_target(toks, i, acc) == Ok::<_, ParseErrorV>(
            (acc + concat_texts(toks.subrange(i, e)), e + 1),
        ),
    decreases e - i,
{
    if i == e {
        assert(toks.subrange(i, e) =~= Seq::<TokV>::empty());
        assert(acc + concat_texts(toks.subrange(i, e)) =~= acc);
    } else {
        let sub = toks.subrange(i, e);
        assert(sub[0] == toks[i]);
        assert(sub.drop_first() =~= toks.subrange(i + 1, e));
        assert(concat_texts(sub) == tok_text(toks[i]) + concat_texts(toks.subrange(i + 1, e)));
        assert(acc + (tok_text(toks[i]) + concat_texts(toks.subrange(i + 1, e))) =~= (acc
            + tok_text(toks[i])) + concat_texts(toks.subrange(i + 1, e)));
        assert(target_ok_tok(toks[i]));
        lemma_target_accum(toks, i + 1, e, acc + tok_text(toks[i]));
    }
}

/// The conditions under which a link's target text survives a
/// serialize-and-reparse: it retokenizes to itself, none of its tokens
/// is a single closing parenthesis, and its edges stay clear of the
/// surrounding parentheses. The empty target satisfies them trivially.
pub open spec fn target_text_clean(t: Seq<char>) -> bool {
    t.len() == 0 || (crate::token::stable_text(t) && t[0] != '(' && t.last() != ')' && forall|
        j: int,
    | 0 <= j < spec_tokenize(t).len() ==> target_ok_tok(#[trigger] spec_tokenize(t)[j]))
}

/// The token shape the bracketed part of a link's serialization
/// always takes.
proof fn lemma_link_tokens_core(name: Seq<char>, t: Seq<char>)
    requires
        crate::token::text_like(name),
        target_text_clean(t),
    ensures
        ({
            let tt: Seq<TokV> = if t.len() == 0 {
                seq![]
            } else {
                spec_tokenize(t)
            };
            spec_tokenize(
                repeat_char('[', 1) + (name + (repeat_char(']', 1) + (repeat_char('(', 1) + (t
                    + repeat_char(')', 1))))),
            ) == seq![
                TokV::RepeatSpecial('[', 1),
                TokV::Str(name),
                TokV::RepeatSpecial(']', 1),
                TokV::RepeatSpecial('(', 1),
            ] + tt + seq![TokV::RepeatSpecial(')', 1)]
        }),
{
    let ob = repeat_char('[', 1);
    let cb = repeat_char(']', 1);
    let op = repeat_char('(', 1);
    let cp = repeat_char(')', 1);
    crate::token::lemma_scan_run('[', 1);
    crate::token::lemma_scan_run(']', 1);
    crate::token::lemma_scan_run('(', 1);
    crate::token::lemma_scan_run(')', 1);
    crate::token::lemma_tokenize_run('[', 1);
    crate::token::lemma_tokenize_run(']', 1);
    crate::token::lemma_tokenize_run('(', 1);
    crate::token::lemma_tokenize_run(')', 1);
    crate::token::lemma_scan_text(name);
    crate::token::lemma_tokenize_text(name);
    let tt: Seq<TokV> = if t.len() == 0 {
        seq![]
    } else {
        spec_tokenize(t)
    };
    // the target with the closing parenthesis after it
    let tclose = t + cp;
    if t.len() == 0 {
        assert(tclose =~= cp);
    } else {
        crate::token::lemma_scan_not_start(crate::token::LexSt::Start, t);
        crate::token::lemma_scan_last(crate::token::LexSt::Start, t);
        assert(tclose[0] == t[0]);
        crate::token::lemma_tokenize_split(t, cp);
    }
    assert(spec_tokenize(tclose) =~= tt + seq![TokV::RepeatSpecial(')', 1)]);
    // the opening parenthesis before that
    let ptail = op + tclose;
    assert(ptail[0] == '(');
    crate::token::lemma_tokenize_split(op, tclose);
    assert(spec_tokenize(ptail) =~= seq![TokV::RepeatSpecial('(', 1)] + tt + seq![
        TokV::RepeatSpecial(')', 1),
    ]);
    // the closing bracket, then all of that
    let btail = cb + ptail;
    crate::token::lemma_tokenize_split(cb, ptail);
    assert(spec_tokenize(btail) =~= seq![
        TokV::RepeatSpecial(']', 1),
        TokV::RepeatSpecial('(', 1),
    ] + tt + seq![TokV::RepeatSpecial(')', 1)]);
    // the name, then all of that
    let ntail = name + btail;
    assert(btail[0] == ']');
    crate::token::lemma_tokenize_split(name, btail);
    assert(spec_tokenize(ntail) =~= seq![
        TokV::Str(name),
        TokV::RepeatSpecial(']', 1),
        TokV::RepeatSpecial('(', 1),
    ] + tt + seq![TokV::RepeatSpecial(')', 1)]);
    // the opening bracket in front
    let core = ob + ntail;
    assert(ntail[0] == name[0]);
    crate::token::lemma_tokenize_split(ob, ntail);
    assert(spec_tokenize(core) =~= seq![
        TokV::RepeatSpecial('[', 1),
        TokV::Str(name),
        TokV::RepeatSpecial(']', 1),
        TokV::RepeatSpecial('(', 1),
    ] + tt + seq![TokV::RepeatSpecial(')', 1)]);
}

/// The token shape a link's serialization always takes.
proof fn lemma_link_tokens(l: LinkV)
    requires
        crate::token::text_like(l.name),
        target_text_clean(spec_link_src_text(l.src)),
    ensures
        ({
            let t = spec_link_src_text(l.src);
            let bang: Seq<TokV> = if l.img {
                seq![TokV::RepeatSpecial('!', 1)]
            } else {
                seq![]
            };
            let tt: Seq<TokV> = if t.len() == 0 {
                seq![]
            } else {
                spec_tokenize(t)
            };
            spec_tokenize(spec_serialize_item(ItemV::Link(l))) == bang + seq![
                TokV::RepeatSpecial('[', 1),
                TokV::Str(l.name),
                TokV::RepeatSpecial(']', 1),
                TokV::RepeatSpecial('(', 1),
            ] + tt + seq![TokV::RepeatSpecial(')', 1)]
        }),
{
    let t = spec_link_src_text(l.src);
    lemma_link_tokens_core(l.name, t);
    let core = repeat_char('[', 1) + (l.name + (repeat_char(']', 1) + (repeat_char('(', 1) + (t
        + repeat_char(')', 1)))));
    if l.img {
        let bang = repeat_char('!', 1);
        assert(spec_serialize_item(ItemV::Link(l)) =~= bang + core);
        assert(core[0] == '[');
        crate::token::lemma_scan_run('!', 1);
        crate::token::lemma_tokenize_split(bang, core);
        crate::token::lemma_tokenize_run('!', 1);
        assert(spec_tokenize(bang + core) =~= seq![TokV::RepeatSpecial('!', 1)] + spec_tokenize(
            core,
        ));
    } else {
        assert(spec_serialize_item(ItemV::Link(l)) =~= core);
        assert(seq![] + spec_tokenize(core) =~= spec_tokenize(core));
    }
}

/// Round trip for links and images: a link whose name is one text run,
/// whose target text is clean in the sense of `target_text_clean`, and
/// whose target is either a normalized URL or a reference name that no
/// URL parse accepts, parses back from its serialization unchanged.
/// `lemma_link_parse_round_trip` shows that every parsed link has
/// these properties, up to the cleanliness of the url crate's normal
/// forms.
pub proof fn lemma_link_round_trip(l: LinkV)
    requires
        crate::token::text_like(l.name),
        target_text_clean(spec_link_src_text(l.src)),
        l.src matches LinkSrcV::Url(t) ==> crate::url_value::url_normal(t),
        l.src matches LinkSrcV::Ref(r) ==> crate::url_value::url_norm(r) is None && all_ref_chars(
            r,
        ) && !l.img,
        !(l.src is Unset),
    ensures
        spec_item_from_str(spec_serialize_item(ItemV::Link(l))) == Ok::<ItemV, ParseErrorV>(
            ItemV::Link(l),
        ),
{
    let t = spec_link_src_text(l.src);
    lemma_link_tokens(l);
    let toks = spec_tokenize(spec_serialize_item(ItemV::Link(l)));
    let b: int = if l.img {
        1
    } else {
        0
    };
    assert(l.img ==> toks[0] == TokV::RepeatSpecial('!', 1));
    assert(toks[b] == TokV::RepeatSpecial('[', 1));
    assert(toks[b + 1] == TokV::Str(l.name));
    assert(toks[b + 2] == TokV::RepeatSpecial(']', 1));
    assert(toks[b + 3] == TokV::RepeatSpecial('(', 1));
    let e = toks.len() - 1;
    assert(toks[e] == TokV::RepeatSpecial(')', 1));
    let tt: Seq<TokV> = if t.len() == 0 {
        seq![]
    } else {
        spec_tokenize(t)
    };
    assert(forall|j: int| b + 4 <= j < e ==> toks[j] == #[trigger] tt[j - (b + 4)]);
    assert(forall|j: int| b + 4 <= j < e ==> target_ok_tok(#[trigger] toks[j]));
    lemma_target_accum(toks, b + 4, e, seq![]);
    assert(toks.subrange(b + 4, e) =~= tt);
    if t.len() == 0 {
        assert(seq![] + concat_texts(tt) =~= t);
    } else {
        assert(seq![] + concat_texts(tt) =~= t);
    }
    assert(spec_link_target(toks, b + 4, seq![]) == Ok::<_, ParseErrorV>((t, e + 1)));
    assert(spec_expect_run1(toks, b + 2, ']') == Ok::<_, ParseErrorV>(b + 3));
    assert(spec_expect_run1(toks, b + 3, '(') == Ok::<_, ParseErrorV>(b + 4));
    if l.img {
        assert(spec_expect_run1(toks, 1, '[') == Ok::<_, ParseErrorV>(2int));
    }
    match l.src {
        LinkSrcV::Url(u) => {
            assert(crate::url_value::url_norm(t) == Some(t));
        },
        LinkSrcV::Ref(r) => {
            assert(crate::url_value::url_norm(t) is None);
        },
        LinkSrcV::Unset => {},
    }
    assert(spec_make_link(l.name, t, l.img, e + 1) == Ok::<_, ParseErrorV>(
        (ItemV::Link(LinkV { name: l.name, src: l.src, img: l.img }), e + 1),
    ));
    assert(spec_parse_link(toks, 1, l.img) == Ok::<_, ParseErrorV>(
        (ItemV::Link(LinkV { name: l.name, src: l.src, img: l.img }), e + 1),
    ));
    assert(LinkV { name: l.name, src: l.src, img: l.img } == l);
    assert(spec_parse_item(toks, 0) == spec_parse_link(toks, 1, l.img));
    assert(e + 1 == toks.len());
}

/// A token a reference name may consist of.
pub open spec fn name_ok_tok(t: TokV) -> bool {
    match t {
        TokV::RepeatSpecial(c, k) => allowed_name_run(c),
        _ => true,
    }
}

/// A name accumulation over acceptable tokens collects exactly their
/// texts, stops at the closing bracket, and hands the rest of the
/// grammar the accumulated name.
pub proof fn lemma_name_accum(toks: Seq<TokV>, i: int, e: int, acc: Seq<char>)
    requires
        0 <= i <= e < toks.len(),
        toks[e] == TokV::RepeatSpecial(']', 1),
        forall|j: int| i <= j < e ==> name_ok_tok(#[trigger] toks[j]),
        (acc + concat_texts(toks.subrange(i, e))).len() > 0,
    ensures
        spec_ref_name(toks, i, acc) == spec_ref_after_name(
            toks,
            e + 1,
            acc + concat_texts(toks.subrange(i, e)),
        ),
    decreases e - i,
{
    if i == e {
        assert(toks.subrange(i, e) =~= Seq::<TokV>::empty());
        assert(acc + concat_texts(toks.subrange(i, e)) =~= acc);
    } else {
        let sub = toks.subrange(i, e);
        assert(sub[0] == toks[i]);
        assert(sub.drop_first() =~= toks.subrange(i + 1, e));
        assert(concat_texts(sub) == tok_text(toks[i]) + concat_texts(toks.subrange(i + 1, e)));
        assert(acc + (tok_text(toks[i]) + concat_texts(toks.subrange(i + 1, e))) =~= (acc
            + tok_text(toks[i])) + concat_texts(toks.subrange(i + 1, e)));
        assert(name_ok_tok(toks[i]));
        match toks[i] {
            TokV::Str(s) => {
                lemma_name_accum(toks, i + 1, e, acc + s);
            },
            TokV::Number(p, f) => {
                lemma_name_accum(toks, i + 1, e, acc + crate::token::num_text(p, f));
            },
            TokV::RepeatSpecial(c, k) => {
                assert(!allowed_name_run(']'));
                assert(c != ']');
                lemma_name_accum(toks, i + 1, e, acc + repeat_char(c, k));
            },
        }
    }
}

/// A token a bracketed target may hold without closing it.
pub open spec fn bracket_ok_tok(t: TokV) -> bool {
    t != TokV::RepeatSpecial('>', 1)
}

/// A bracketed-target accumulation over acceptable tokens collects
/// exactly their texts and stops at the closing angle bracket.
pub proof fn lemma_bracket_accum(toks: Seq<TokV>, i: int, e: int, acc: Seq<char>)
    requires
        0 <= i <= e < toks.len(),
        toks[e] == TokV::RepeatSpecial('>', 1),
        forall|j: int| i <= j < e ==> bracket_ok_tok(#[trigger] toks[j]),
    ensures
        spec_ref_url_bracketed(toks, i, acc) == Ok::<_, ParseErrorV>(
            (acc + concat_texts(toks.subrange(i, e)), e + 1),
        ),
    decreases e - i,
{
    if i == e {
        assert(toks.subrange(i, e) =~= Seq::<TokV>::empty());
        assert(acc + concat_texts(toks.subrange(i, e)) =~= acc);
    } else {
        let sub = toks.subrange(i, e);
        assert(sub[0] == toks[i]);
        assert(sub.drop_first() =~= toks.subrange(i + 1, e));
        assert(concat_texts(sub) == tok_text(toks[i]) + concat_texts(toks.subrange(i + 1, e)));
        assert(acc + (tok_text(toks[i]) + concat_texts(toks.subrange(i + 1, e))) =~= (acc
            + tok_text(toks[i])) + concat_texts(toks.subrange(i + 1, e)));
        lemma_bracket_accum(toks, i + 1, e, acc + tok_text(toks[i]));
    }
}

/// A title accumulation over acceptable tokens collects exactly their
/// texts and stops at its terminator.
pub proof fn lemma_title_accum(toks: Seq<TokV>, i: int, e: int, term: char, acc: Seq<char>)
    requires
        0 <= i <= e < toks.len(),
        toks[e] == TokV::RepeatSpecial(term, 1),
        forall|j: int| i <= j < e ==> #[trigger] toks[j] != TokV::RepeatSpecial(term, 1),
    ensures
        spec_title_until(toks, i, term, acc) == Ok::<_, ParseErrorV>(
            (acc + concat_texts(toks.subrange(i, e)), e + 1),
        ),
    decreases e - i,
{
    if i == e {
        assert(toks.subrange(i, e) =~= Seq::<TokV>::empty());
        assert(acc + concat_texts(toks.subrange(i, e)) =~= acc);
    } else {
        let sub = toks.subrange(i, e);
        assert(sub[0] == toks[i]);
        assert(sub.drop_first() =~= toks.subrange(i + 1, e));
        assert(concat_texts(sub) == tok_text(toks[i]) + concat_texts(toks.subrange(i + 1, e)));
        assert(acc + (tok_text(toks[i]) + concat_texts(toks.subrange(i + 1, e))) =~= (acc
            + tok_text(toks[i])) + concat_texts(toks.subrange(i + 1, e)));
        lemma_title_accum(toks, i + 1, e, term, acc + tok_text(toks[i]));
    }
}

/// The conditions under which a reference's name survives a
/// serialize-and-reparse: it is nonempty, retokenizes to itself from
/// tokens the name grammar accepts, and stays clear of the brackets
/// around it.
pub open spec fn ref_name_clean(s: Seq<char>) -> bool {
    s.len() > 0 && crate::token::stable_text(s) && s[0] != '[' && s.last() != ']' && forall|j: int|
        0 <= j < spec_tokenize(s).len() ==> name_ok_tok(#[trigger] spec_tokenize(s)[j])
}

/// The conditions under which a reference's target survives a
/// serialize-and-reparse between its angle brackets.
pub open spec fn ref_href_clean(s: Seq<char>) -> bool {
    s.len() > 0 && crate::token::is_letter(s[0]) && s.last() != '>'
        && crate::token::stable_text(s) && forall|j: int|
        0 <= j < spec_tokenize(s).len() ==> bracket_ok_tok(#[trigger] spec_tokenize(s)[j])
}

/// The conditions under which a reference's title survives a
/// serialize-and-reparse between its parentheses: absent, or nonempty,
/// retokenizing to itself, with no lone closing parenthesis among its
/// tokens and none of the surrounding parentheses at its edges.
pub open spec fn ref_title_clean(s: Seq<char>) -> bool {
    s.len() == 0 || (crate::token::stable_text(s) && s[0] != '(' && s.last() != ')' && forall|
        j: int,
    | 0 <= j < spec_tokenize(s).len() ==> #[trigger] spec_tokenize(s)[j] != TokV::RepeatSpecial(
        ')',
        1,
    ))
}

/// The closing text after a reference's target: the angle bracket,
/// and the parenthesized title where there is one.
pub open spec fn ref_tail_text(v: RefV) -> Seq<char> {
    if v.title.len() == 0 {
        repeat_char('>', 1)
    } else {
        repeat_char('>', 1) + (repeat_char('(', 1) + (v.title + repeat_char(')', 1)))
    }
}

/// The tokens of a reference's optional title part.
pub open spec fn ref_title_toks(v: RefV) -> Seq<TokV> {
    if v.title.len() == 0 {
        seq![]
    } else {
        seq![TokV::RepeatSpecial('(', 1)] + spec_tokenize(v.title) + seq![
            TokV::RepeatSpecial(')', 1),
        ]
    }
}

/// The token shape of a reference's target and what closes it.
proof fn lemma_ref_tail_tokens(v: RefV)
    requires
        ref_href_clean(v.href),
        ref_title_clean(v.title),
    ensures
        spec_tokenize(v.href + ref_tail_text(v)) == spec_tokenize(v.href) + seq![
            TokV::RepeatSpecial('>', 1),
        ] + ref_title_toks(v),
{
    let ht = spec_tokenize(v.href);
    let gt = repeat_char('>', 1);
    let op = repeat_char('(', 1);
    let cp = repeat_char(')', 1);
    crate::token::lemma_scan_run('>', 1);
    crate::token::lemma_scan_run('(', 1);
    crate::token::lemma_scan_run(')', 1);
    crate::token::lemma_tokenize_run('>', 1);
    crate::token::lemma_tokenize_run('(', 1);
    crate::token::lemma_tokenize_run(')', 1);
    let tail = ref_tail_text(v);
    let titletoks = ref_title_toks(v);
    if v.title.len() > 0 {
        let tclose = v.title + cp;
        crate::token::lemma_scan_not_start(crate::token::LexSt::Start, v.title);
        crate::token::lemma_scan_last(crate::token::LexSt::Start, v.title);
        assert(tclose[0] == v.title[0]);
        crate::token::lemma_tokenize_split(v.title, cp);
        let ptitle = op + tclose;
        assert(ptitle[0] == '(');
        crate::token::lemma_tokenize_split(op, tclose);
        assert(ptitle[0] != '>');
        crate::token::lemma_tokenize_split(gt, ptitle);
        assert(spec_tokenize(tail) =~= seq![TokV::RepeatSpecial('>', 1)] + titletoks);
    } else {
        assert(spec_tokenize(tail) =~= seq![TokV::RepeatSpecial('>', 1)] + titletoks);
    }
    assert(tail[0] == '>');
    crate::token::lemma_scan_not_start(crate::token::LexSt::Start, v.href);
    crate::token::lemma_scan_last(crate::token::LexSt::Start, v.href);
    crate::token::lemma_tokenize_split(v.href, tail);
    assert(spec_tokenize(v.href + tail) =~= ht + seq![TokV::RepeatSpecial('>', 1)] + titletoks);
}

/// The token shape of the four structural characters that stand
/// between a reference's name and its target.
proof fn lemma_ref_mid_tokens(rest: Seq<char>)
    requires
        rest.len() > 0,
        rest[0] != '<',
    ensures
        spec_tokenize(
            repeat_char(']', 1) + (repeat_char(':', 1) + (repeat_char(' ', 1) + (repeat_char(
                '<',
                1,
            ) + rest))),
        ) == seq![
            TokV::RepeatSpecial(']', 1),
            TokV::RepeatSpecial(':', 1),
            TokV::RepeatSpecial(' ', 1),
            TokV::RepeatSpecial('<', 1),
        ] + spec_tokenize(rest),
{
    let cb = repeat_char(']', 1);
    let co = repeat_char(':', 1);
    let sp = repeat_char(' ', 1);
    let lt = repeat_char('<', 1);
    crate::token::lemma_scan_run(']', 1);
    crate::token::lemma_scan_run(':', 1);
    crate::token::lemma_scan_run(' ', 1);
    crate::token::lemma_scan_run('<', 1);
    crate::token::lemma_tokenize_run(']', 1);
    crate::token::lemma_tokenize_run(':', 1);
    crate::token::lemma_tokenize_run(' ', 1);
    crate::token::lemma_tokenize_run('<', 1);
    let ltail = lt + rest;
    assert(ltail[0] == '<');
    crate::token::lemma_tokenize_split(lt, rest);
    let stail = sp + ltail;
    crate::token::lemma_tokenize_split(sp, ltail);
    let ctail = co + stail;
    crate::token::lemma_tokenize_split(co, stail);
    let btail = cb + ctail;
    crate::token::lemma_tokenize_split(cb, ctail);
    assert(spec_tokenize(btail) =~= seq![
        TokV::RepeatSpecial(']', 1),
        TokV::RepeatSpecial(':', 1),
        TokV::RepeatSpecial(' ', 1),
        TokV::RepeatSpecial('<', 1),
    ] + spec_tokenize(rest));
}

/// The token shape a reference's serialization always takes.
#[verifier::rlimit(100)]
proof fn lemma_reference_tokens(v: RefV)
    requires
        ref_name_clean(v.name),
        ref_href_clean(v.href),
        ref_title_clean(v.title),
    ensures
        ({
            let nt = spec_tokenize(v.name);
            let ht = spec_tokenize(v.href);
            let mid = seq![
                TokV::RepeatSpecial(']', 1),
                TokV::RepeatSpecial(':', 1),
                TokV::RepeatSpecial(' ', 1),
                TokV::RepeatSpecial('<', 1),
            ];
            spec_tokenize(spec_serialize_reference(v)) == seq![TokV::RepeatSpecial('[', 1)] + nt
                + mid + ht + seq![TokV::RepeatSpecial('>', 1)] + ref_title_toks(v)
        }),
{
    let nt = spec_tokenize(v.name);
    let ht = spec_tokenize(v.href);
    let ob = repeat_char('[', 1);
    crate::token::lemma_scan_run('[', 1);
    crate::token::lemma_tokenize_run('[', 1);
    lemma_ref_tail_tokens(v);
    let titletoks = ref_title_toks(v);
    let htail = v.href + ref_tail_text(v);
    assert(htail[0] == v.href[0]);
    lemma_ref_mid_tokens(htail);
    let mid_text = repeat_char(']', 1) + (repeat_char(':', 1) + (repeat_char(' ', 1) + (
    repeat_char('<', 1) + htail)));
    // the name, then all of that
    let ntail = v.name + mid_text;
    crate::token::lemma_scan_not_start(crate::token::LexSt::Start, v.name);
    crate::token::lemma_scan_last(crate::token::LexSt::Start, v.name);
    assert(mid_text[0] == ']');
    crate::token::lemma_tokenize_split(v.name, mid_text);
    // the opening bracket in front
    let full = ob + ntail;
    assert(ntail[0] == v.name[0]);
    crate::token::lemma_tokenize_split(ob, ntail);
    assert(spec_serialize_reference(v) =~= full);
    assert(spec_tokenize(full) =~= seq![TokV::RepeatSpecial('[', 1)] + nt + seq![
        TokV::RepeatSpecial(']', 1),
        TokV::RepeatSpecial(':', 1),
        TokV::RepeatSpecial(' ', 1),
        TokV::RepeatSpecial('<', 1),
    ] + ht + seq![TokV::RepeatSpecial('>', 1)] + titletoks);
}

/// Round trip for reference definitions: a reference whose name,
/// normalized target and optional title are clean in the sense of the
/// predicates above parses back from its serialization unchanged.
/// `lemma_reference_parse_round_trip` shows that every parsed
/// reference has a clean name; the target's and a quoted title's
/// cleanliness stand as premises.
#[verifier::rlimit(60)]
pub proof fn lemma_reference_round_trip(v: RefV)
    requires
        ref_name_clean(v.name),
        ref_href_clean(v.href),
        ref_title_clean(v.title),
        crate::url_value::url_normal(v.href),
    ensures
        spec_reference_from_str(spec_serialize_reference(v)) == Ok::<RefV, ParseErrorV>(v),
{
    let nt = spec_tokenize(v.name);
    let ht = spec_tokenize(v.href);
    lemma_reference_tokens(v);
    let toks = spec_tokenize(spec_serialize_reference(v));
    let e1 = 1 + nt.len() as int;
    let e2 = e1 + 4 + ht.len() as int;
    assert(toks[0] == TokV::RepeatSpecial('[', 1));
    assert(forall|j: int| 1 <= j < e1 ==> toks[j] == #[trigger] nt[j - 1]);
    assert(toks[e1] == TokV::RepeatSpecial(']', 1));
    assert(toks[e1 + 1] == TokV::RepeatSpecial(':', 1));
    assert(toks[e1 + 2] == TokV::RepeatSpecial(' ', 1));
    assert(toks[e1 + 3] == TokV::RepeatSpecial('<', 1));
    assert(forall|j: int| e1 + 4 <= j < e2 ==> toks[j] == #[trigger] ht[j - (e1 + 4)]);
    assert(toks[e2] == TokV::RepeatSpecial('>', 1));
    // the name is collected up to its bracket
    assert(forall|j: int| 1 <= j < e1 ==> name_ok_tok(#[trigger] toks[j]));
    assert(toks.subrange(1, e1) =~= nt);
    assert(seq![] + concat_texts(nt) =~= v.name);
    lemma_name_accum(toks, 1, e1, seq![]);
    assert(spec_ref_name(toks, 1, seq![]) == spec_ref_after_name(toks, e1 + 1, v.name));
    // the colon, the space and the opening angle bracket are stepped
    // over, and the target is collected up to its bracket
    assert(spec_expect_run1(toks, e1 + 1, ':') == Ok::<_, ParseErrorV>(e1 + 2));
    assert(is_space_tok(toks[e1 + 2]));
    assert(toks[e1 + 3] == TokV::RepeatSpecial('<', 1));
    assert(forall|j: int| e1 + 4 <= j < e2 ==> bracket_ok_tok(#[trigger] toks[j]));
    lemma_bracket_accum(toks, e1 + 4, e2, seq![]);
    assert(toks.subrange(e1 + 4, e2) =~= ht);
    assert(seq![] + concat_texts(ht) =~= v.href);
    assert(spec_ref_url_bracketed(toks, e1 + 4, seq![]) == Ok::<_, ParseErrorV>(
        (v.href, e2 + 1),
    ));
    assert(crate::url_value::url_norm(v.href) == Some(v.href));
    // the title, where there is one, is collected between its
    // parentheses
    if v.title.len() == 0 {
        assert(toks.len() == e2 + 1);
        assert(spec_ref_title(toks, e2 + 1) == Ok::<_, ParseErrorV>((Seq::<char>::empty(), e2 + 1)));
        assert(v.title =~= Seq::<char>::empty());
        assert(spec_parse_reference(toks) == Ok::<_, ParseErrorV>(
            (RefV { name: v.name, title: v.title, href: v.href }, toks.len() as int),
        ));
    } else {
        let tt = spec_tokenize(v.title);
        let e3 = toks.len() - 1;
        assert(toks[e2 + 1] == TokV::RepeatSpecial('(', 1));
        assert(forall|j: int| e2 + 2 <= j < e3 ==> toks[j] == #[trigger] tt[j - (e2 + 2)]);
        assert(toks[e3] == TokV::RepeatSpecial(')', 1));
        assert(forall|j: int|
            e2 + 2 <= j < e3 ==> #[trigger] toks[j] != TokV::RepeatSpecial(')', 1));
        lemma_title_accum(toks, e2 + 2, e3, ')', seq![]);
        assert(toks.subrange(e2 + 2, e3) =~= tt);
        assert(seq![] + concat_texts(tt) =~= v.title);
        assert(!is_space_tok(toks[e2 + 1]));
        assert(spec_ref_title(toks, e2 + 1) == Ok::<_, ParseErrorV>((v.title, e3 + 1)));
        assert(spec_parse_reference(toks) == Ok::<_, ParseErrorV>(
            (RefV { name: v.name, title: v.title, href: v.href }, toks.len() as int),
        ));
    }
    assert(RefV { name: v.name, title: v.title, href: v.href } == v);
}

/// The payload of an emphasis item is one text-like run; other items
/// carry no such payload.
pub open spec fn emphasis_payload_text_like(v: ItemV) -> bool {
    match v {
        ItemV::Italic(s) => crate::token::text_like(s),
        ItemV::Bold(s) => crate::token::text_like(s),
        ItemV::BoldItalic(s) => crate::token::text_like(s),
        _ => true,
    }
}

/// Whatever an item parse over well formed tokens accepts, an
/// emphasis item's payload is one text-like run.
pub proof fn lemma_parse_item_payload(toks: Seq<TokV>, i: int)
    requires
        0 <= i,
        forall|j: int| 0 <= j < toks.len() ==> crate::token::tok_wf(#[trigger] toks[j]),
    ensures
        spec_parse_item(toks, i) matches Ok(p) ==> emphasis_payload_text_like(p.0) && !(p.0
            is Def),
    decreases toks.len() - i,
{
    if i >= toks.len() {
    } else {
        match toks[i] {
            TokV::RepeatSpecial(c, n) => {
                if c == ' ' {
                    lemma_parse_item_payload(toks, i + 1);
                } else if c == '*' && !(c == '!' && n == 1) && !(c == '[' && n == 1) {
                    assert(spec_parse_emphasis(toks, i + 1, n) matches Ok(p)
                        ==> emphasis_payload_text_like(p.0)) by {
                        if i + 1 < toks.len() && (toks[i + 1] matches TokV::Str(s)) {
                            assert(crate::token::tok_wf(toks[i + 1]));
                        }
                    }
                }
            },
            _ => {},
        }
    }
}

/// The round-trip law for emphasis items, quantified over parses: any
/// italic, bold or bold-italic item a whole-input parse produces
/// parses back from its serialization unchanged.
pub proof fn lemma_item_parse_round_trip(s: Seq<char>)
    ensures
        spec_item_from_str(s) matches Ok(v) ==> ((v matches ItemV::Italic(_) || v
            matches ItemV::Bold(_) || v matches ItemV::BoldItalic(_))
            ==> spec_item_from_str(spec_serialize_item(v)) == Ok::<ItemV, ParseErrorV>(v)),
{
    let toks = spec_tokenize(s);
    crate::token::lemma_tokenize_wf(s);
    lemma_parse_item_payload(toks, 0);
    match spec_item_from_str(s) {
        Ok(v) => {
            match v {
                ItemV::Italic(_) => lemma_item_round_trip(v),
                ItemV::Bold(_) => lemma_item_round_trip(v),
                ItemV::BoldItalic(_) => lemma_item_round_trip(v),
                _ => {},
            }
        },
        Err(_) => {},
    }
}

/// The round-trip law for headings, quantified over parses: any
/// heading a whole-input parse produces parses back from its
/// serialization unchanged.
pub proof fn lemma_heading_parse_round_trip(s: Seq<char>)
    ensures
        spec_heading_from_str(s) matches Ok(h) ==> spec_heading_from_str(
            spec_serialize_heading(h),
        ) == Ok::<HeadingV, ParseErrorV>(h),
{
    let toks = spec_tokenize(s);
    crate::token::lemma_tokenize_wf(s);
    crate::token::lemma_tokenize_adj(s);
    match spec_heading_from_str(s) {
        Ok(h) => {
            match toks[0] {
                TokV::Str(t) => {
                    assert(crate::token::tok_wf(toks[0]));
                    assert(h.content == t);
                    crate::token::lemma_tokenize_text(t);
                    lemma_heading_round_trip(h);
                },
                TokV::RepeatSpecial(c, n) => {
                    let start: int = if toks.len() >= 2 && (toks[1] matches TokV::RepeatSpecial(
                        ' ',
                        _,
                    )) {
                        2
                    } else {
                        1
                    };
                    assert(h.content == concat_texts(toks.subrange(start, toks.len() as int)));
                    crate::token::lemma_subrange_retok(toks, start, toks.len() as int);
                    crate::token::lemma_subrange_edges(toks, start, toks.len() as int);
                    assert(h.content[0] == tok_text(toks[start])[0]);
                    crate::token::lemma_tok_text_chars(toks[start]);
                    assert(h.content[0] != ' ') by {
                        if start == 2 {
                            assert(crate::token::adj_ok(toks[1], toks[2]));
                        }
                        match toks[start] {
                            TokV::RepeatSpecial(d, _) => {
                                assert(d != ' ');
                            },
                            TokV::Str(s0) => {
                                assert(crate::token::is_letter(s0[0]));
                            },
                            TokV::Number(_, _) => {
                                assert(crate::token::is_digit(tok_text(toks[start])[0]));
                            },
                        }
                    }
                    lemma_heading_round_trip(h);
                },
                TokV::Number(_, _) => {},
            }
        },
        Err(_) => {},
    }
}

/// What a successful target accumulation reveals about the tokens: it
/// stopped at a lone closing parenthesis, passed none on the way, and
/// collected exactly the texts in between.
proof fn lemma_target_inv(toks: Seq<TokV>, i: int, acc: Seq<char>)
    requires
        0 <= i,
    ensures
        spec_link_target(toks, i, acc) matches Ok(p) ==> i < p.1 <= toks.len() && toks[p.1 - 1]
            == TokV::RepeatSpecial(')', 1) && (forall|k: int|
            i <= k < p.1 - 1 ==> #[trigger] toks[k] != TokV::RepeatSpecial(')', 1)) && p.0 == acc
            + concat_texts(toks.subrange(i, p.1 - 1)),
    decreases toks.len() - i,
{
    if i >= toks.len() {
    } else if toks[i] == TokV::RepeatSpecial(')', 1) {
        assert(toks.subrange(i, i) =~= Seq::<TokV>::empty());
        assert(acc + concat_texts(toks.subrange(i, i)) =~= acc);
    } else {
        lemma_target_inv(toks, i + 1, acc + tok_text(toks[i]));
        match spec_link_target(toks, i + 1, acc + tok_text(toks[i])) {
            Ok(p) => {
                let e = p.1 - 1;
                let sub = toks.subrange(i, e);
                assert(sub[0] == toks[i]);
                assert(sub.drop_first() =~= toks.subrange(i + 1, e));
                assert(concat_texts(sub) == tok_text(toks[i]) + concat_texts(
                    toks.subrange(i + 1, e),
                ));
                assert(acc + (tok_text(toks[i]) + concat_texts(toks.subrange(i + 1, e))) =~= (acc
                    + tok_text(toks[i])) + concat_texts(toks.subrange(i + 1, e)));
            },
            Err(_) => {},
        }
    }
}

/// A target accumulated between a lone opening and a lone closing
/// parenthesis of the tokenizer's output is clean: it retokenizes to
/// the same tokens and keeps clear of the parentheses around it.
proof fn lemma_parsed_target_clean(toks: Seq<TokV>, i: int, e: int)
    requires
        forall|j: int| 0 <= j < toks.len() ==> crate::token::tok_wf(#[trigger] toks[j]),
        crate::token::pairwise_adj(toks),
        0 < i <= e < toks.len(),
        toks[i - 1] == TokV::RepeatSpecial('(', 1),
        toks[e] == TokV::RepeatSpecial(')', 1),
        forall|k: int| i <= k < e ==> #[trigger] toks[k] != TokV::RepeatSpecial(')', 1),
    ensures
        target_text_clean(concat_texts(toks.subrange(i, e))),
{
    let sub = toks.subrange(i, e);
    let tgt = concat_texts(sub);
    if sub.len() == 0 {
        assert(tgt.len() == 0);
    } else {
        crate::token::lemma_subrange_retok(toks, i, e);
        assert(forall|j: int| 0 <= j < sub.len() ==> sub[j] == #[trigger] toks[i + j]);
        assert(forall|j: int|
            0 <= j < spec_tokenize(tgt).len() ==> target_ok_tok(#[trigger] spec_tokenize(tgt)[j]));
        crate::token::lemma_subrange_edges(toks, i, e);
        assert(crate::token::adj_ok(toks[i - 1], toks[i]));
        assert(crate::token::adj_ok(toks[e - 1], toks[e]));
        crate::token::lemma_edge_not(toks[i], '(');
        crate::token::lemma_edge_not(toks[e - 1], ')');
    }
}

/// Whatever an item parse over the tokenizer's output accepts as a
/// link, its name is one text run, and a reference target is clean,
/// rejected by the URL parser, made of allow-listed characters, and
/// never on an image.
proof fn lemma_parse_item_link(toks: Seq<TokV>, i: int)
    requires
        0 <= i,
        forall|j: int| 0 <= j < toks.len() ==> crate::token::tok_wf(#[trigger] toks[j]),
        crate::token::pairwise_adj(toks),
    ensures
        spec_parse_item(toks, i) matches Ok(p) ==> (p.0 matches ItemV::Link(l)
            ==> crate::token::text_like(l.name) && !(l.src is Unset) && (l.src
            matches LinkSrcV::Ref(r) ==> target_text_clean(r) && crate::url_value::url_norm(r)
            is None && all_ref_chars(r) && !l.img)),
    decreases toks.len() - i,
{
    if i >= toks.len() {
    } else {
        match toks[i] {
            TokV::RepeatSpecial(c, n) => {
                if c == ' ' {
                    lemma_parse_item_link(toks, i + 1);
                } else if (c == '!' && n == 1) || (c == '[' && n == 1) {
                    let img = c == '!';
                    lemma_parse_link_shape(toks, i + 1, img);
                }
            },
            _ => {},
        }
    }
}

/// The link facts behind `lemma_parse_item_link`, at the link grammar
/// itself.
proof fn lemma_parse_link_shape(toks: Seq<TokV>, i: int, img: bool)
    requires
        0 <= i,
        forall|j: int| 0 <= j < toks.len() ==> crate::token::tok_wf(#[trigger] toks[j]),
        crate::token::pairwise_adj(toks),
    ensures
        spec_parse_link(toks, i, img) matches Ok(p) ==> (p.0 matches ItemV::Link(l)
            ==> crate::token::text_like(l.name) && !(l.src is Unset) && (l.src
            matches LinkSrcV::Ref(r) ==> target_text_clean(r) && crate::url_value::url_norm(r)
            is None && all_ref_chars(r) && !l.img)),
{
    let r0: Result<int, ParseErrorV> = if img {
        spec_expect_run1(toks, i, '[')
    } else {
        Ok(i)
    };
    match r0 {
        Err(_) => {},
        Ok(i1) => {
            if i1 < toks.len() {
                match toks[i1] {
                    TokV::Str(name) => {
                        assert(crate::token::tok_wf(toks[i1]));
                        match spec_expect_run1(toks, i1 + 1, ']') {
                            Err(_) => {},
                            Ok(i2) => {
                                match spec_expect_run1(toks, i2, '(') {
                                    Err(_) => {},
                                    Ok(i3) => {
                                        assert(toks[i3 - 1] == TokV::RepeatSpecial('(', 1));
                                        lemma_target_inv(toks, i3, seq![]);
                                        match spec_link_target(toks, i3, seq![]) {
                                            Err(_) => {},
                                            Ok(tp) => {
                                                let e = tp.1 - 1;
                                                assert(seq![] + concat_texts(
                                                    toks.subrange(i3, e),
                                                ) =~= concat_texts(toks.subrange(i3, e)));
                                                lemma_parsed_target_clean(toks, i3, e);
                                            },
                                        }
                                    },
                                }
                            },
                        }
                    },
                    _ => {},
                }
            }
        },
    }
}

/// The round-trip law for links, quantified over parses: any link or
/// image a whole-input parse produces parses back from its
/// serialization unchanged, granted - for a URL target - that the url
/// crate's normal form is a fixed point of reparsing (which the
/// parser's URL wrapper guarantees of every value it builds) and that
/// the normal form's text is clean in the sense of
/// `target_text_clean`. A reference target needs no such grant.
pub proof fn lemma_link_parse_round_trip(s: Seq<char>)
    ensures
        spec_item_from_str(s) matches Ok(v) ==> (v matches ItemV::Link(l) ==> ((l.src
            matches LinkSrcV::Url(t) ==> crate::url_value::url_normal(t) && target_text_clean(t))
            ==> spec_item_from_str(spec_serialize_item(v)) == Ok::<ItemV, ParseErrorV>(v))),
{
    let toks = spec_tokenize(s);
    crate::token::lemma_tokenize_wf(s);
    crate::token::lemma_tokenize_adj(s);
    lemma_parse_item_link(toks, 0);
    match spec_item_from_str(s) {
        Ok(v) => {
            match v {
                ItemV::Link(l) => {
                    let ok = match l.src {
                        LinkSrcV::Url(t) => crate::url_value::url_normal(t)
                            && target_text_clean(t),
                        _ => true,
                    };
                    if ok {
                        lemma_link_round_trip(l);
                    }
                },
                _ => {},
            }
        },
        Err(_) => {},
    }
}

/// A name accumulated between the opening bracket and the closing
/// bracket of the tokenizer's output is clean: it retokenizes to the
/// same tokens and keeps clear of the brackets around it.
proof fn lemma_parsed_name_clean(toks: Seq<TokV>, i: int, e: int)
    requires
        forall|j: int| 0 <= j < toks.len() ==> crate::token::tok_wf(#[trigger] toks[j]),
        crate::token::pairwise_adj(toks),
        0 < i <= e < toks.len(),
        toks[i - 1] == TokV::RepeatSpecial('[', 1),
        toks[e] == TokV::RepeatSpecial(']', 1),
        forall|k: int| i <= k < e ==> name_ok_tok(#[trigger] toks[k]),
        concat_texts(toks.subrange(i, e)).len() > 0,
    ensures
        ref_name_clean(concat_texts(toks.subrange(i, e))),
{
    let sub = toks.subrange(i, e);
    let nm = concat_texts(sub);
    assert(sub.len() > 0) by {
        if sub.len() == 0 {
            assert(nm =~= Seq::<char>::empty());
        }
    }
    crate::token::lemma_subrange_retok(toks, i, e);
    assert(forall|j: int| 0 <= j < sub.len() ==> sub[j] == #[trigger] toks[i + j]);
    assert(forall|j: int|
        0 <= j < spec_tokenize(nm).len() ==> name_ok_tok(#[trigger] spec_tokenize(nm)[j]));
    crate::token::lemma_subrange_edges(toks, i, e);
    assert(crate::token::adj_ok(toks[i - 1], toks[i]));
    assert(crate::token::adj_ok(toks[e - 1], toks[e]));
    crate::token::lemma_edge_not(toks[i], '[');
    crate::token::lemma_edge_not(toks[e - 1], ']');
}

/// The rest of the reference grammar returns whatever name it was
/// handed.
proof fn lemma_after_name_keeps(toks: Seq<TokV>, i: int, nm: Seq<char>)
    ensures
        spec_ref_after_name(toks, i, nm) matches Ok(q) ==> q.0.name == nm,
{
}

/// Whatever a reference parse over the tokenizer's output accepts, its
/// name is clean in the sense of `ref_name_clean`.
proof fn lemma_ref_name_from_parse(toks: Seq<TokV>, i0: int, i: int)
    requires
        forall|j: int| 0 <= j < toks.len() ==> crate::token::tok_wf(#[trigger] toks[j]),
        crate::token::pairwise_adj(toks),
        0 < i0 <= i,
        toks[i0 - 1] == TokV::RepeatSpecial('[', 1),
        forall|k: int| i0 <= k < i ==> name_ok_tok(#[trigger] toks[k]),
    ensures
        spec_ref_name(toks, i, concat_texts(toks.subrange(i0, i))) matches Ok(p)
            ==> ref_name_clean(p.0.name),
    decreases toks.len() - i,
{
    let acc = concat_texts(toks.subrange(i0, i));
    if i >= toks.len() {
    } else {
        assert(toks.subrange(i0, i + 1).drop_last() =~= toks.subrange(i0, i));
        match toks[i] {
            TokV::Str(s) => {
                lemma_concat_snoc_toks(toks, i0, i);
                lemma_ref_name_from_parse(toks, i0, i + 1);
            },
            TokV::Number(p, f) => {
                lemma_concat_snoc_toks(toks, i0, i);
                lemma_ref_name_from_parse(toks, i0, i + 1);
            },
            TokV::RepeatSpecial(c, k) => {
                if c == ']' && k == 1 {
                    if acc.len() > 0 {
                        lemma_parsed_name_clean(toks, i0, i);
                        lemma_after_name_keeps(toks, i + 1, acc);
                    }
                } else if allowed_name_run(c) {
                    lemma_concat_snoc_toks(toks, i0, i);
                    lemma_ref_name_from_parse(toks, i0, i + 1);
                }
            },
        }
    }
}

/// Extending a token subrange by one token appends that token's text
/// to the concatenation.
proof fn lemma_concat_snoc_toks(toks: Seq<TokV>, i0: int, i: int)
    requires
        0 <= i0 <= i < toks.len(),
    ensures
        concat_texts(toks.subrange(i0, i + 1)) == concat_texts(toks.subrange(i0, i)) + tok_text(
            toks[i],
        ),
{
    assert(toks.subrange(i0, i + 1) =~= toks.subrange(i0, i).push(toks[i]));
    crate::block::lemma_concat_snoc(toks.subrange(i0, i), toks[i]);
}

/// The round-trip law for reference definitions, quantified over
/// parses: any reference a whole-input parse produces parses back from
/// its serialization unchanged, granted that its normalized target is
/// a fixed point of reparsing with clean text (which the parser's URL
/// wrapper guarantees in part), and that its title is clean - as every
/// parenthesized title is.
pub proof fn lemma_reference_parse_round_trip(s: Seq<char>)
    ensures
        spec_reference_from_str(s) matches Ok(v) ==> ((crate::url_value::url_normal(v.href)
            && ref_href_clean(v.href) && ref_title_clean(v.title))
            ==> spec_reference_from_str(spec_serialize_reference(v)) == Ok::<RefV, ParseErrorV>(
            v,
        )),
{
    let toks = spec_tokenize(s);
    crate::token::lemma_tokenize_wf(s);
    crate::token::lemma_tokenize_adj(s);
    if toks.len() > 0 && toks[0] == TokV::RepeatSpecial('[', 1) {
        assert(toks.subrange(1, 1) =~= Seq::<TokV>::empty());
        assert(concat_texts(toks.subrange(1, 1)) =~= Seq::<char>::empty());
        lemma_ref_name_from_parse(toks, 1, 1);
    }
    match spec_reference_from_str(s) {
        Ok(v) => {
            if crate::url_value::url_normal(v.href) && ref_href_clean(v.href) && ref_title_clean(
                v.title,
            ) {
                lemma_reference_round_trip(v);
            }
        },
        Err(_) => {},
    }
}

} // verus!
