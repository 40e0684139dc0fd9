//! Code blocks: short inline fences and full fenced blocks with a
//! language tag, with their parser, serializer and builder.
use vstd::prelude::*;
use crate::strutil::{push_char, repeat_char, repeat_string, str_eq};
use crate::token::{
    concat_texts,
    err_of_tok, spec_finish, spec_tokenize, tok_text, tokenize, toks_of, ParseToken, TokV,
};
use crate::{Error, ParseError, ParseErrorV};

verus! {

/// The language a code block is tagged with, each variant carrying the
/// fence length the block was written with. `Plain` is a block with no
/// tag, `Unknown` one whose tag is outside the recognized set.
#[derive(Debug, Clone, PartialEq, Eq)]
pub enum CodeKind {
    Cpp(usize),
    CStandard(usize),
    CSharp(usize),
    Go(usize),
    Haskell(usize),
    Java(usize),
    JavaScript(usize),
    Lua(usize),
    Python(usize),
    Ruby(usize),
    Rust(usize),
    Plain(usize),
    Unknown(String, usize),
}

/// The abstract value of a code kind.
pub ghost enum CodeKindV {
    Cpp(nat),
    CStandard(nat),
    CSharp(nat),
    Go(nat),
    Haskell(nat),
    Java(nat),
    JavaScript(nat),
    Lua(nat),
    Python(nat),
    Ruby(nat),
    Rust(nat),
    Plain(nat),
    Unknown(Seq<char>, nat),
}

impl View for CodeKind {
    type V = CodeKindV;

    open spec fn view(&self) -> CodeKindV {
        match self {
            CodeKind::Cpp(c) => CodeKindV::Cpp(*c as nat),
            CodeKind::CStandard(c) => CodeKindV::CStandard(*c as nat),
            CodeKind::CSharp(c) => CodeKindV::CSharp(*c as nat),
            CodeKind::Go(c) => CodeKindV::Go(*c as nat),
            CodeKind::Haskell(c) => CodeKindV::Haskell(*c as nat),
            CodeKind::Java(c) => CodeKindV::Java(*c as nat),
            CodeKind::JavaScript(c) => CodeKindV::JavaScript(*c as nat),
            CodeKind::Lua(c) => CodeKindV::Lua(*c as nat),
            CodeKind::Python(c) => CodeKindV::Python(*c as nat),
            CodeKind::Ruby(c) => CodeKindV::Ruby(*c as nat),
            CodeKind::Rust(c) => CodeKindV::Rust(*c as nat),
            CodeKind::Plain(c) => CodeKindV::Plain(*c as nat),
            CodeKind::Unknown(s, c) => CodeKindV::Unknown(s@, *c as nat),
        }
    }
}

/// The fence length stored in a code kind.
pub open spec fn kind_index(k: CodeKindV) -> nat {
    match k {
        CodeKindV::Cpp(c) => c,
        CodeKindV::CStandard(c) => c,
        CodeKindV::CSharp(c) => c,
        CodeKindV::Go(c) => c,
        CodeKindV::Haskell(c) => c,
        CodeKindV::Java(c) => c,
        CodeKindV::JavaScript(c) => c,
        CodeKindV::Lua(c) => c,
        CodeKindV::Python(c) => c,
        CodeKindV::Ruby(c) => c,
        CodeKindV::Rust(c) => c,
        CodeKindV::Plain(c) => c,
        CodeKindV::Unknown(_, c) => c,
    }
}

/// The same kind with its fence length increased by `n`.
pub open spec fn spec_increase_indent(k: CodeKindV, n: nat) -> CodeKindV {
    match k {
        CodeKindV::Cpp(c) => CodeKindV::Cpp((c + n) as nat),
        CodeKindV::CStandard(c) => CodeKindV::CStandard((c + n) as nat),
        CodeKindV::CSharp(c) => CodeKindV::CSharp((c + n) as nat),
        CodeKindV::Go(c) => CodeKindV::Go((c + n) as nat),
        CodeKindV::Haskell(c) => CodeKindV::Haskell((c + n) as nat),
        CodeKindV::Java(c) => CodeKindV::Java((c + n) as nat),
        CodeKindV::JavaScript(c) => CodeKindV::JavaScript((c + n) as nat),
        CodeKindV::Lua(c) => CodeKindV::Lua((c + n) as nat),
        CodeKindV::Python(c) => CodeKindV::Python((c + n) as nat),
        CodeKindV::Ruby(c) => CodeKindV::Ruby((c + n) as nat),
        CodeKindV::Rust(c) => CodeKindV::Rust((c + n) as nat),
        CodeKindV::Plain(c) => CodeKindV::Plain((c + n) as nat),
        CodeKindV::Unknown(s, c) => CodeKindV::Unknown(s, (c + n) as nat),
    }
}

/// The language tag a kind serializes to; empty for a plain block.
pub open spec fn kind_tag(k: CodeKindV) -> Seq<char> {
    match k {
        CodeKindV::Cpp(_) => seq!['c', 'p', 'p'],
        CodeKindV::CStandard(_) => seq!['c'],
        CodeKindV::CSharp(_) => seq!['c', 's', 'h', 'a', 'r', 'p'],
        CodeKindV::Go(_) => seq!['g', 'o'],
        CodeKindV::Haskell(_) => seq!['h', 'a', 's', 'k', 'e', 'l', 'l'],
        CodeKindV::Java(_) => seq!['j', 'a', 'v', 'a'],
        CodeKindV::JavaScript(_) => seq!['j', 'a', 'v', 'a', 's', 'c', 'r', 'i', 'p', 't'],
        CodeKindV::Lua(_) => seq!['l', 'u', 'a'],
        CodeKindV::Python(_) => seq!['p', 'y', 't', 'h', 'o', 'n'],
        CodeKindV::Ruby(_) => seq!['r', 'u', 'b', 'y'],
        CodeKindV::Rust(_) => seq!['r', 'u', 's', 't'],
        CodeKindV::Plain(_) => seq![],
        CodeKindV::Unknown(s, _) => s,
    }
}

/// The kind a parsed tag resolves to, with fence length zero; a tag
/// outside the recognized set is kept as it stands.
pub open spec fn kind_of_tag(s: Seq<char>) -> CodeKindV {
    if s.len() == 0 {
        CodeKindV::Plain(0)
    } else if s == seq!['c', 's', 'h', 'a', 'r', 'p'] {
        CodeKindV::CSharp(0)
    } else if s == seq!['c'] {
        CodeKindV::CStandard(0)
    } else if s == seq!['c', 'p', 'p'] {
        CodeKindV::Cpp(0)
    } else if s == seq!['g', 'o'] {
        CodeKindV::Go(0)
    } else if s == seq!['h', 'a', 's', 'k', 'e', 'l', 'l'] {
        CodeKindV::Haskell(0)
    } else if s == seq!['j', 'a', 'v', 'a'] {
        CodeKindV::Java(0)
    } else if s == seq!['j', 'a', 'v', 'a', 's', 'c', 'r', 'i', 'p', 't'] {
        CodeKindV::JavaScript(0)
    } else if s == seq!['l', 'u', 'a'] {
        CodeKindV::Lua(0)
    } else if s == seq!['p', 'y', 't', 'h', 'o', 'n'] {
        CodeKindV::Python(0)
    } else if s == seq!['r', 'u', 'b', 'y'] {
        CodeKindV::Ruby(0)
    } else if s == seq!['r', 'u', 's', 't'] {
        CodeKindV::Rust(0)
    } else {
        CodeKindV::Unknown(s, 0)
    }
}

impl CodeKind {
    /// The same kind with its fence length increased by `n`.
    pub fn increase_indent(self, n: usize) -> (r: Self)
        requires
            kind_index(self@) + n <= usize::MAX,
        ensures
            r@ == spec_increase_indent(self@, n as nat),
    {
        match self {
            CodeKind::Cpp(c) => CodeKind::Cpp(c + n),
            CodeKind::CStandard(c) => CodeKind::CStandard(c + n),
            CodeKind::CSharp(c) => CodeKind::CSharp(c + n),
            CodeKind::Go(c) => CodeKind::Go(c + n),
            CodeKind::Haskell(c) => CodeKind::Haskell(c + n),
            CodeKind::Java(c) => CodeKind::Java(c + n),
            CodeKind::JavaScript(c) => CodeKind::JavaScript(c + n),
            CodeKind::Lua(c) => CodeKind::Lua(c + n),
            CodeKind::Python(c) => CodeKind::Python(c + n),
            CodeKind::Ruby(c) => CodeKind::Ruby(c + n),
            CodeKind::Rust(c) => CodeKind::Rust(c + n),
            CodeKind::Plain(c) => CodeKind::Plain(c + n),
            CodeKind::Unknown(s, c) => CodeKind::Unknown(s, c + n),
        }
    }

    /// The fence length stored in this kind.
    pub fn get_index(&self) -> (r: usize)
        ensures
            r as nat == kind_index(self@),
    {
        match self {
            CodeKind::Cpp(c) => *c,
            CodeKind::CStandard(c) => *c,
            CodeKind::CSharp(c) => *c,
            CodeKind::Go(c) => *c,
            CodeKind::Haskell(c) => *c,
            CodeKind::Java(c) => *c,
            CodeKind::JavaScript(c) => *c,
            CodeKind::Lua(c) => *c,
            CodeKind::Python(c) => *c,
            CodeKind::Ruby(c) => *c,
            CodeKind::Rust(c) => *c,
            CodeKind::Plain(c) => *c,
            CodeKind::Unknown(_, c) => *c,
        }
    }

    /// Resolves a language tag against the recognized set.
    pub fn from_tag(s: &str) -> (r: Self)
        ensures
            r@ == kind_of_tag(s@),
    {
        proof {
            reveal_strlit("csharp");
            reveal_strlit("c");
            reveal_strlit("cpp");
            reveal_strlit("go");
            reveal_strlit("haskell");
            reveal_strlit("java");
            reveal_strlit("javascript");
            reveal_strlit("lua");
            reveal_strlit("python");
            reveal_strlit("ruby");
            reveal_strlit("rust");
            assert("csharp"@ =~= seq!['c', 's', 'h', 'a', 'r', 'p']);
            assert("c"@ =~= seq!['c']);
            assert("cpp"@ =~= seq!['c', 'p', 'p']);
            assert("go"@ =~= seq!['g', 'o']);
            assert("haskell"@ =~= seq!['h', 'a', 's', 'k', 'e', 'l', 'l']);
            assert("java"@ =~= seq!['j', 'a', 'v', 'a']);
            assert("javascript"@ =~= seq!['j', 'a', 'v', 'a', 's', 'c', 'r', 'i', 'p', 't']);
            assert("lua"@ =~= seq!['l', 'u', 'a']);
            assert("python"@ =~= seq!['p', 'y', 't', 'h', 'o', 'n']);
            assert("ruby"@ =~= seq!['r', 'u', 'b', 'y']);
            assert("rust"@ =~= seq!['r', 'u', 's', 't']);
        }
        if s.is_empty() {
            CodeKind::Plain(0)
        } else if str_eq(s, "csharp") {
            CodeKind::CSharp(0)
        } else if str_eq(s, "c") {
            CodeKind::CStandard(0)
        } else if str_eq(s, "cpp") {
            CodeKind::Cpp(0)
        } else if str_eq(s, "go") {
            CodeKind::Go(0)
        } else if str_eq(s, "haskell") {
            CodeKind::Haskell(0)
        } else if str_eq(s, "java") {
            CodeKind::Java(0)
        } else if str_eq(s, "javascript") {
            CodeKind::JavaScript(0)
        } else if str_eq(s, "lua") {
            CodeKind::Lua(0)
        } else if str_eq(s, "python") {
            CodeKind::Python(0)
        } else if str_eq(s, "ruby") {
            CodeKind::Ruby(0)
        } else if str_eq(s, "rust") {
            CodeKind::Rust(0)
        } else {
            CodeKind::Unknown(s.to_owned(), 0)
        }
    }

    /// The language tag this kind serializes to.
    pub fn to_string(&self) -> (r: String)
        ensures
            r@ == kind_tag(self@),
    {
        proof {
            reveal_strlit("csharp");
            reveal_strlit("c");
            reveal_strlit("cpp");
            reveal_strlit("go");
            reveal_strlit("haskell");
            reveal_strlit("java");
            reveal_strlit("javascript");
            reveal_strlit("lua");
            reveal_strlit("python");
            reveal_strlit("ruby");
            reveal_strlit("rust");
            assert("csharp"@ =~= seq!['c', 's', 'h', 'a', 'r', 'p']);
            assert("c"@ =~= seq!['c']);
            assert("cpp"@ =~= seq!['c', 'p', 'p']);
            assert("go"@ =~= seq!['g', 'o']);
            assert("haskell"@ =~= seq!['h', 'a', 's', 'k', 'e', 'l', 'l']);
            assert("java"@ =~= seq!['j', 'a', 'v', 'a']);
            assert("javascript"@ =~= seq!['j', 'a', 'v', 'a', 's', 'c', 'r', 'i', 'p', 't']);
            assert("lua"@ =~= seq!['l', 'u', 'a']);
            assert("python"@ =~= seq!['p', 'y', 't', 'h', 'o', 'n']);
            assert("ruby"@ =~= seq!['r', 'u', 'b', 'y']);
            assert("rust"@ =~= seq!['r', 'u', 's', 't']);
        }
        match self {
            CodeKind::CSharp(_) => String::from_str("csharp"),
            CodeKind::CStandard(_) => String::from_str("c"),
            CodeKind::Cpp(_) => String::from_str("cpp"),
            CodeKind::Go(_) => String::from_str("go"),
            CodeKind::Haskell(_) => String::from_str("haskell"),
            CodeKind::Java(_) => String::from_str("java"),
            CodeKind::JavaScript(_) => String::from_str("javascript"),
            CodeKind::Lua(_) => String::from_str("lua"),
            CodeKind::Python(_) => String::from_str("python"),
            CodeKind::Ruby(_) => String::from_str("ruby"),
            CodeKind::Rust(_) => String::from_str("rust"),
            CodeKind::Plain(_) => String::new(),
            CodeKind::Unknown(s, _) => s.clone(),
        }
    }
}

impl std::str::FromStr for CodeKind {
    type Err = ParseError;

    fn from_str(s: &str) -> Result<CodeKind, ParseError> {
        Ok(CodeKind::from_tag(s))
    }
}

/// A code block: its content and its tagged kind, which remembers the
/// fence length it was written with.
#[derive(Debug, Clone, PartialEq, Eq)]
pub struct Code {
    pub content: String,
    pub kind: CodeKind,
}

/// The abstract value of a code block.
pub ghost struct CodeV {
    pub content: Seq<char>,
    pub kind: CodeKindV,
}

impl View for Code {
    type V = CodeV;

    open spec fn view(&self) -> CodeV {
        CodeV { content: self.content@, kind: self.kind@ }
    }
}

/// The short-fence grammar after an opening run of `n` backticks (one
/// or two): token texts accumulate as content - shorter backtick runs
/// stay literal - until a backtick run of at least `n` closes the
/// block. A newline cannot stand in it, and an immediately closing
/// fence encloses nothing.
pub open spec fn spec_parse_inner(toks: Seq<TokV>, i: int, n: nat, acc: Seq<char>) -> Result<
    (CodeV, int),
    ParseErrorV,
>
    decreases toks.len() - i,
{
    if i >= toks.len() {
        Err(ParseErrorV::UnexpectedEnd)
    } else {
        match toks[i] {
            TokV::RepeatSpecial(c, k) => if c == '\n' {
                Err(ParseErrorV::UnexpectedChar('\n'))
            } else if c == '`' {
                if k < n {
                    spec_parse_inner(toks, i + 1, n, acc + repeat_char('`', k))
                } else if acc.len() == 0 {
                    Err(ParseErrorV::EmptyContent)
                } else {
                    Ok((CodeV { content: acc, kind: CodeKindV::Plain(n) }, i + 1))
                }
            } else {
                spec_parse_inner(toks, i + 1, n, acc + repeat_char(c, k))
            },
            _ => spec_parse_inner(toks, i + 1, n, acc + tok_text(toks[i])),
        }
    }
}

/// The tag line of a fenced block: text runs accumulate up to the
/// first newline; anything structural on that line is refused, and a
/// block that ends here is unterminated.
pub open spec fn spec_code_tag(toks: Seq<TokV>, i: int, n: nat, acc: Seq<char>) -> Result<
    (CodeV, int),
    ParseErrorV,
>
    decreases toks.len() - i,
{
    if i >= toks.len() {
        Err(ParseErrorV::UnexpectedEnd)
    } else {
        match toks[i] {
            TokV::Str(s) => spec_code_tag(toks, i + 1, n, acc + s),
            TokV::RepeatSpecial(c, k) => if c == '\n' {
                spec_code_body(
                    toks,
                    i + 1,
                    n,
                    acc,
                    repeat_char(
                        '\n',
                        if k >= 1 {
                            (k - 1) as nat
                        } else {
                            0
                        },
                    ),
                )
            } else {
                Err(ParseErrorV::UnexpectedChar(c))
            },
            TokV::Number(_, _) => Err(err_of_tok(toks[i])),
        }
    }
}

/// The body of a fenced block: token texts accumulate, newlines
/// preserved, until a backtick run of at least `n` closes the block;
/// one newline directly before the closing fence belongs to the fence,
/// not the body. A block that ends without its fence is unterminated.
pub open spec fn spec_code_body(
    toks: Seq<TokV>,
    i: int,
    n: nat,
    tag: Seq<char>,
    acc: Seq<char>,
) -> Result<(CodeV, int), ParseErrorV>
    decreases toks.len() - i,
{
    if i >= toks.len() {
        Err(ParseErrorV::UnexpectedEnd)
    } else {
        match toks[i] {
            TokV::RepeatSpecial(c, k) => if c == '`' && k >= n {
                let content = if acc.len() > 0 && acc.last() == '\n' {
                    acc.drop_last()
                } else {
                    acc
                };
                Ok(
                    (
                        CodeV {
                            content,
                            kind: spec_increase_indent(kind_of_tag(tag), n),
                        },
                        i + 1,
                    ),
                )
            } else {
                spec_code_body(toks, i + 1, n, tag, acc + repeat_char(c, k))
            },
            _ => spec_code_body(toks, i + 1, n, tag, acc + tok_text(toks[i])),
        }
    }
}

/// The code-block grammar: an opening backtick run picks the short or
/// the fenced branch by its length.
pub open spec fn spec_parse_code(toks: Seq<TokV>) -> Result<(CodeV, int), ParseErrorV> {
    if toks.len() == 0 {
        Err(ParseErrorV::EmptyDocument)
    } else {
        match toks[0] {
            TokV::RepeatSpecial(c, n) => if c == '`' {
                if n == 1 || n == 2 {
                    spec_parse_inner(toks, 1, n, seq![])
                } else {
                    spec_code_tag(toks, 1, n, seq![])
                }
            } else {
                Err(ParseErrorV::UnexpectedChar(c))
            },
            _ => Err(err_of_tok(toks[0])),
        }
    }
}

/// The serialization of a code block: fences of the stored length
/// around tag and content, with the tag line's newline and the closing
/// fence's newline written out for a full fenced block.
pub open spec fn spec_serialize_code(v: CodeV) -> Seq<char> {
    let idx = kind_index(v.kind);
    let fence = repeat_char('`', idx);
    if idx <= 2 {
        fence + kind_tag(v.kind) + v.content + fence
    } else {
        fence + kind_tag(v.kind) + seq!['\n'] + v.content + seq!['\n'] + fence
    }
}

/// A whole-input code parse: tokenize, parse, and refuse trailing
/// tokens.
pub open spec fn spec_code_from_str(s: Seq<char>) -> Result<CodeV, ParseErrorV> {
    spec_finish(spec_parse_code(spec_tokenize(s)), spec_tokenize(s))
}

/// Parses a short-fenced block after its opening run.
fn parse_inner(tokens: &Vec<ParseToken>, i: usize, n: usize, acc: String) -> (r: Result<
    (Code, usize),
    ParseError,
>)
    requires
        i <= tokens@.len(),
    ensures
        r matches Ok(p) ==> spec_parse_inner(toks_of(tokens@), i as int, n as nat, acc@) == Ok::<
            _,
            ParseErrorV,
        >((p.0@, p.1 as int)) && p.1 <= tokens@.len(),
        r matches Err(e) ==> spec_parse_inner(toks_of(tokens@), i as int, n as nat, acc@) == Err::<
            (CodeV, int),
            _,
        >(e@),
    decreases tokens@.len() - i,
{
    if i >= tokens.len() {
        return Err(ParseError::UnexpectedEnd);
    }
    proof {
        assert(toks_of(tokens@)[i as int] == tokens@[i as int]@);
    }
    match &tokens[i] {
        ParseToken::RepeatSpecial(c, k) => {
            if *c == '\n' {
                return Err(ParseError::UnexpectedChar('\n'));
            }
            if *c == '`' {
                if *k < n {
                    let mut acc2 = acc;
                    append_run(&mut acc2, '`', *k);
                    return parse_inner(tokens, i + 1, n, acc2);
                }
                if acc.as_str().is_empty() {
                    return Err(ParseError::EmptyContent);
                }
                return Ok((Code { content: acc, kind: CodeKind::Plain(n) }, i + 1));
            }
            let mut acc2 = acc;
            append_run(&mut acc2, *c, *k);
            parse_inner(tokens, i + 1, n, acc2)
        },
        _ => {
            let piece = tokens[i].to_string();
            let mut acc2 = acc;
            acc2.append(piece.as_str());
            parse_inner(tokens, i + 1, n, acc2)
        },
    }
}

/// Appends `k` copies of `c` to `acc`.
fn append_run(acc: &mut String, c: char, k: usize)
    ensures
        final(acc)@ == old(acc)@ + repeat_char(c, k as nat),
{
    crate::strutil::append_repeat(acc, c, k);
}

/// Parses the tag line of a fenced block.
fn code_tag(tokens: &Vec<ParseToken>, i: usize, n: usize, acc: String) -> (r: Result<
    (Code, usize),
    ParseError,
>)
    requires
        i <= tokens@.len(),
    ensures
        r matches Ok(p) ==> spec_code_tag(toks_of(tokens@), i as int, n as nat, acc@) == Ok::<
            _,
            ParseErrorV,
        >((p.0@, p.1 as int)) && p.1 <= tokens@.len(),
        r matches Err(e) ==> spec_code_tag(toks_of(tokens@), i as int, n as nat, acc@) == Err::<
            (CodeV, int),
            _,
        >(e@),
    decreases tokens@.len() - i,
{
    if i >= tokens.len() {
        return Err(ParseError::UnexpectedEnd);
    }
    proof {
        assert(toks_of(tokens@)[i as int] == tokens@[i as int]@);
    }
    match &tokens[i] {
        ParseToken::String(s) => {
            let mut acc2 = acc;
            acc2.append(s.as_str());
            code_tag(tokens, i + 1, n, acc2)
        },
        ParseToken::RepeatSpecial(c, k) => {
            if *c == '\n' {
                let extra = if *k >= 1 {
                    *k - 1
                } else {
                    0
                };
                let mut body_acc = String::new();
                append_run(&mut body_acc, '\n', extra);
                proof {
                    assert(body_acc@ =~= repeat_char('\n', extra as nat));
                }
                code_body(tokens, i + 1, n, acc, body_acc)
            } else {
                Err(ParseError::UnexpectedChar(*c))
            }
        },
        other => Err(other.to_err()),
    }
}

/// Parses the body of a fenced block up to its closing fence.
fn code_body(tokens: &Vec<ParseToken>, i: usize, n: usize, tag: String, acc: String) -> (r: Result<
    (Code, usize),
    ParseError,
>)
    requires
        i <= tokens@.len(),
    ensures
        r matches Ok(p) ==> spec_code_body(toks_of(tokens@), i as int, n as nat, tag@, acc@)
            == Ok::<_, ParseErrorV>((p.0@, p.1 as int)) && p.1 <= tokens@.len(),
        r matches Err(e) ==> spec_code_body(toks_of(tokens@), i as int, n as nat, tag@, acc@)
            == Err::<(CodeV, int), _>(e@),
    decreases tokens@.len() - i,
{
    if i >= tokens.len() {
        return Err(ParseError::UnexpectedEnd);
    }
    proof {
        assert(toks_of(tokens@)[i as int] == tokens@[i as int]@);
    }
    let close = match &tokens[i] {
        ParseToken::RepeatSpecial(c, k) => *c == '`' && *k >= n,
        _ => false,
    };
    if close {
        let content = trim_trailing_newline(acc);
        let kind = CodeKind::from_tag(tag.as_str());
        proof {
            assert(kind_index(kind@) == 0);
        }
        let kind = kind.increase_indent(n);
        return Ok((Code { content, kind }, i + 1));
    }
    match &tokens[i] {
        ParseToken::RepeatSpecial(c, k) => {
            let mut acc2 = acc;
            append_run(&mut acc2, *c, *k);
            code_body(tokens, i + 1, n, tag, acc2)
        },
        _ => {
            let piece = tokens[i].to_string();
            let mut acc2 = acc;
            acc2.append(piece.as_str());
            code_body(tokens, i + 1, n, tag, acc2)
        },
    }
}

/// Removes one newline from the end of `s`, if one stands there.
fn trim_trailing_newline(s: String) -> (r: String)
    ensures
        r@ == if s@.len() > 0 && s@.last() == '\n' {
            s@.drop_last()
        } else {
            s@
        },
{
    let l = s.as_str().unicode_len();
    if l > 0 && s.as_str().get_char(l - 1) == '\n' {
        let out = s.as_str().substring_char(0, l - 1);
        proof {
            assert(out@ =~= s@.drop_last());
        }
        out.to_owned()
    } else {
        s
    }
}

impl Code {
    /// Parses a code block from the front of a token sequence; on
    /// success also returns how many tokens it consumed.
    pub fn parse(tokens: &Vec<ParseToken>) -> (r: Result<(Code, usize), ParseError>)
        ensures
            r matches Ok(p) ==> spec_parse_code(toks_of(tokens@)) == Ok::<_, ParseErrorV>(
                (p.0@, p.1 as int),
            ) && p.1 <= tokens@.len(),
            r matches Err(e) ==> spec_parse_code(toks_of(tokens@)) == Err::<(CodeV, int), _>(e@),
    {
        if tokens.len() == 0 {
            return Err(ParseError::EmptyDocument);
        }
        proof {
            assert(toks_of(tokens@)[0] == tokens@[0]@);
        }
        match &tokens[0] {
            ParseToken::RepeatSpecial(c, n) => {
                if *c == '`' {
                    if *n == 1 || *n == 2 {
                        parse_inner(tokens, 1, *n, String::new())
                    } else {
                        code_tag(tokens, 1, *n, String::new())
                    }
                } else {
                    Err(ParseError::UnexpectedChar(*c))
                }
            },
            other => Err(other.to_err()),
        }
    }

    /// Parses a string that must be exactly one code block.
    pub fn parse_str(s: &str) -> (r: Result<Code, ParseError>)
        ensures
            r matches Ok(v) ==> spec_code_from_str(s@) == Ok::<_, ParseErrorV>(v@),
            r matches Err(e) ==> spec_code_from_str(s@) == Err::<CodeV, _>(e@),
    {
        let tokens = tokenize(s);
        match Self::parse(&tokens) {
            Ok((v, i)) => if i == tokens.len() {
                Ok(v)
            } else {
                proof {
                    assert(toks_of(tokens@)[i as int] == tokens@[i as int]@);
                }
                Err(tokens[i].to_err())
            },
            Err(e) => Err(e),
        }
    }

    /// The block's serialization: the fence of the stored length, the
    /// tag, the content, and the closing fence.
    pub fn to_string(&self) -> (r: String)
        ensures
            r@ == spec_serialize_code(self@),
    {
        let idx = self.kind.get_index();
        let mut out = repeat_string('`', idx);
        let tag = self.kind.to_string();
        out.append(tag.as_str());
        if idx > 2 {
            push_char(&mut out, '\n');
        }
        out.append(self.content.as_str());
        if idx > 2 {
            push_char(&mut out, '\n');
        }
        let fence = repeat_string('`', idx);
        out.append(fence.as_str());
        proof {
            assert(out@ =~= spec_serialize_code(self@));
        }
        out
    }
}

impl std::str::FromStr for Code {
    type Err = ParseError;

    fn from_str(s: &str) -> Result<Code, ParseError> {
        Code::parse_str(s)
    }
}

/// Builds a code block from named fields; the kind must be set.
#[derive(Debug, Clone, PartialEq, Eq)]
pub struct CodeBuilder {
    content: String,
    kind: Option<CodeKind>,
}

/// The abstract value of a code builder.
pub ghost struct CodeBuilderV {
    pub content: Seq<char>,
    pub kind: Option<CodeKindV>,
}

impl View for CodeBuilder {
    type V = CodeBuilderV;

    closed spec fn view(&self) -> CodeBuilderV {
        CodeBuilderV {
            content: self.content@,
            kind: match &self.kind {
                Some(k) => Some(k@),
                Option::None => Option::None,
            },
        }
    }
}

impl Default for CodeBuilder {
    fn default() -> (r: Self)
        ensures
            r@.content.len() == 0,
            r@.kind is None,
    {
        CodeBuilder { content: String::new(), kind: Option::None }
    }
}

impl CodeBuilder {
    /// Replaces the content.
    pub fn content(self, c: &str) -> (r: Self)
        ensures
            r@.content == c@,
            r@.kind == self@.kind,
    {
        CodeBuilder { content: c.to_owned(), kind: self.kind }
    }

    /// Replaces the kind.
    pub fn kind(self, k: CodeKind) -> (r: Self)
        ensures
            r@.kind == Some(k@),
            r@.content == self@.content,
    {
        CodeBuilder { content: self.content, kind: Some(k) }
    }

    /// The finished block; a missing kind is incomplete data.
    pub fn build(self) -> (r: Result<Code, Error>)
        ensures
            r is Ok <==> self@.kind is Some,
            r matches Ok(v) ==> v@.content == self@.content && Some(v@.kind) == self@.kind,
            r matches Err(e) ==> e == Error::IncompleteData,
    {
        match self.kind {
            Some(kind) => Ok(Code { content: self.content, kind }),
            Option::None => Err(Error::IncompleteData),
        }
    }
}

/// A token that a short fence's content may hold: no newline, and no
/// backtick run long enough to close the fence.
pub open spec fn inner_ok_tok(t: TokV, n: nat) -> bool {
    match t {
        TokV::RepeatSpecial(c, k) => c != '\n' && (c == '`' ==> k < n),
        _ => true,
    }
}

/// Whatever a short-fence parse accepts, its kind stores the opening
/// run's length.
pub proof fn lemma_inner_idx(toks: Seq<TokV>, i: int, n: nat, acc: Seq<char>)
    ensures
        spec_parse_inner(toks, i, n, acc) matches Ok(p) ==> p.0.kind == CodeKindV::Plain(n),
    decreases toks.len() - i,
{
    if i >= toks.len() {
    } else {
        match toks[i] {
            TokV::RepeatSpecial(c, k) => {
                if c == '\n' {
                } else if c == '`' {
                    if k < n {
                        lemma_inner_idx(toks, i + 1, n, acc + repeat_char('`', k));
                    }
                } else {
                    lemma_inner_idx(toks, i + 1, n, acc + repeat_char(c, k));
                }
            },
            _ => {
                lemma_inner_idx(toks, i + 1, n, acc + tok_text(toks[i]));
            },
        }
    }
}

/// The kind a tag resolves to stores fence length zero.
pub proof fn lemma_tag_idx_zero(s: Seq<char>)
    ensures
        kind_index(kind_of_tag(s)) == 0,
{
}

/// Whatever a fenced body parse accepts, its kind stores the opening
/// run's length.
pub proof fn lemma_body_idx(toks: Seq<TokV>, i: int, n: nat, tag: Seq<char>, acc: Seq<char>)
    ensures
        spec_code_body(toks, i, n, tag, acc) matches Ok(p) ==> kind_index(p.0.kind) == n,
    decreases toks.len() - i,
{
    if i >= toks.len() {
    } else {
        lemma_tag_idx_zero(tag);
        match toks[i] {
            TokV::RepeatSpecial(c, k) => {
                if c == '`' && k >= n {
                } else {
                    lemma_body_idx(toks, i + 1, n, tag, acc + repeat_char(c, k));
                }
            },
            _ => {
                lemma_body_idx(toks, i + 1, n, tag, acc + tok_text(toks[i]));
            },
        }
    }
}

/// Whatever a tag-line parse accepts, its kind stores the opening
/// run's length.
pub proof fn lemma_tag_line_idx(toks: Seq<TokV>, i: int, n: nat, acc: Seq<char>)
    ensures
        spec_code_tag(toks, i, n, acc) matches Ok(p) ==> kind_index(p.0.kind) == n,
    decreases toks.len() - i,
{
    if i >= toks.len() {
    } else {
        match toks[i] {
            TokV::Str(s) => {
                lemma_tag_line_idx(toks, i + 1, n, acc + s);
            },
            TokV::RepeatSpecial(c, k) => {
                if c == '\n' {
                    lemma_body_idx(
                        toks,
                        i + 1,
                        n,
                        acc,
                        repeat_char(
                            '\n',
                            if k >= 1 {
                                (k - 1) as nat
                            } else {
                                0
                            },
                        ),
                    );
                }
            },
            TokV::Number(_, _) => {
            },
        }
    }
}

/// Fence-length fidelity: whatever closes a code block, a successful
/// parse stores the opening run's length as the block's fence length.
pub proof fn lemma_fence_length_fidelity(toks: Seq<TokV>, k: nat)
    requires
        toks.len() > 0,
        toks[0] == TokV::RepeatSpecial('`', k),
    ensures
        spec_parse_code(toks) matches Ok(p) ==> kind_index(p.0.kind) == k,
{
    if k == 1 || k == 2 {
        lemma_inner_idx(toks, 1, k, seq![]);
    } else {
        lemma_tag_line_idx(toks, 1, k, seq![]);
    }
}

/// A short-fence parse over acceptable tokens accumulates exactly
/// their texts and closes on the final fence.
pub proof fn lemma_inner_accum(toks: Seq<TokV>, i: int, n: nat, m: nat, acc: Seq<char>)
    requires
        0 <= i <= toks.len() - 1,
        toks[toks.len() - 1] == TokV::RepeatSpecial('`', m),
        m >= n,
        forall|j: int| i <= j < toks.len() - 1 ==> inner_ok_tok(#[trigger] toks[j], n),
        (acc + concat_texts(toks.subrange(i, toks.len() - 1))).len() > 0,
    ensures
        spec_parse_inner(toks, i, n, acc) == Ok::<_, ParseErrorV>(
            (
                CodeV {
                    content: acc + concat_texts(toks.subrange(i, toks.len() - 1)),
                    kind: CodeKindV::Plain(n),
                },
                toks.len() as int,
            ),
        ),
    decreases toks.len() - i,
{
    let ll = toks.len() - 1;
    if i == ll {
        assert(toks.subrange(i, ll) =~= Seq::<TokV>::empty());
        assert(acc + concat_texts(toks.subrange(i, ll)) =~= acc);
    } else {
        let sub = toks.subrange(i, ll);
        assert(sub[0] == toks[i]);
        assert(sub.drop_first() =~= toks.subrange(i + 1, ll));
        assert(concat_texts(sub) == tok_text(toks[i]) + concat_texts(toks.subrange(i + 1, ll)));
        assert(acc + (tok_text(toks[i]) + concat_texts(toks.subrange(i + 1, ll))) =~= (acc
            + tok_text(toks[i])) + concat_texts(toks.subrange(i + 1, ll)));
        assert(inner_ok_tok(toks[i], n));
        match toks[i] {
            TokV::RepeatSpecial(c, k) => {
                if c == '`' {
                    assert(k < n);
                    lemma_inner_accum(toks, i + 1, n, m, acc + repeat_char('`', k));
                } else {
                    lemma_inner_accum(toks, i + 1, n, m, acc + repeat_char(c, k));
                }
            },
            _ => {
                lemma_inner_accum(toks, i + 1, n, m, acc + tok_text(toks[i]));
            },
        }
    }
}

/// Round trip for short-fenced code: a block whose kind is plain with
/// fence length one or two, and whose content is nonempty, stays away
/// from the fence character at its edges, contains no newline token
/// and no closing-length backtick run, and retokenizes to itself,
/// parses back from its serialization unchanged.
/// `lemma_code_parse_round_trip` shows that every parsed short block
/// has these properties.
pub proof fn lemma_code_inline_round_trip(v: CodeV)
    requires
        ({
            let n = kind_index(v.kind);
            let t = spec_tokenize(v.content);
            v.kind == CodeKindV::Plain(n) && 1 <= n <= 2 && v.content.len() > 0
                && v.content[0] != '`' && v.content.last() != '`' && crate::token::stable_text(
                v.content,
            ) && forall|j: int| 0 <= j < t.len() ==> inner_ok_tok(#[trigger] t[j], n)
        }),
    ensures
        spec_code_from_str(spec_serialize_code(v)) == Ok::<CodeV, ParseErrorV>(v),
{
    let n = kind_index(v.kind);
    let a = repeat_char('`', n);
    let mid = v.content + a;
    let full = spec_serialize_code(v);
    assert(full =~= a + mid);
    crate::token::lemma_scan_run('`', n);
    assert(mid[0] == v.content[0]);
    crate::token::lemma_tokenize_split(a, mid);
    crate::token::lemma_scan_not_start(crate::token::LexSt::Start, v.content);
    crate::token::lemma_scan_last(crate::token::LexSt::Start, v.content);
    crate::token::lemma_tokenize_split(v.content, a);
    crate::token::lemma_tokenize_run('`', n);
    let t = spec_tokenize(v.content);
    let toks = spec_tokenize(full);
    assert(toks =~= seq![TokV::RepeatSpecial('`', n)] + t + seq![TokV::RepeatSpecial('`', n)]);
    assert(toks[0] == TokV::RepeatSpecial('`', n));
    let ll = toks.len() - 1;
    assert(toks[ll] == TokV::RepeatSpecial('`', n));
    assert(forall|j: int| 1 <= j < ll ==> toks[j] == #[trigger] t[j - 1]);
    assert(forall|j: int| 1 <= j < ll ==> inner_ok_tok(#[trigger] toks[j], n));
    assert(toks.subrange(1, ll) =~= t);
    assert(seq![] + concat_texts(t) =~= v.content);
    lemma_inner_accum(toks, 1, n, n, seq![]);
    assert(spec_parse_code(toks) == Ok::<_, ParseErrorV>(
        (CodeV { content: v.content, kind: CodeKindV::Plain(n) }, toks.len() as int),
    ));
    assert(CodeV { content: v.content, kind: CodeKindV::Plain(n) } == v);
}

/// A token that a fenced body may hold without closing it: no
/// backtick run of the fence's length.
pub open spec fn body_ok_tok(t: TokV, n: nat) -> bool {
    match t {
        TokV::RepeatSpecial(c, k) => c == '`' ==> k < n,
        _ => true,
    }
}

/// One newline dropped from the end, where one stands.
pub open spec fn trim_nl(s: Seq<char>) -> Seq<char> {
    if s.len() > 0 && s.last() == '\n' {
        s.drop_last()
    } else {
        s
    }
}

/// A fenced body parse over acceptable tokens accumulates exactly
/// their texts, closes on the final fence, and trims the newline that
/// belongs to it.
pub proof fn lemma_body_accum(
    toks: Seq<TokV>,
    i: int,
    n: nat,
    m: nat,
    tag: Seq<char>,
    acc: Seq<char>,
)
    requires
        0 <= i <= toks.len() - 1,
        toks[toks.len() - 1] == TokV::RepeatSpecial('`', m),
        m >= n,
        forall|j: int| i <= j < toks.len() - 1 ==> body_ok_tok(#[trigger] toks[j], n),
    ensures
        spec_code_body(toks, i, n, tag, acc) == Ok::<_, ParseErrorV>(
            (
                CodeV {
                    content: trim_nl(acc + concat_texts(toks.subrange(i, toks.len() - 1))),
                    kind: spec_increase_indent(kind_of_tag(tag), n),
                },
                toks.len() as int,
            ),
        ),
    decreases toks.len() - i,
{
    let ll = toks.len() - 1;
    if i == ll {
        assert(toks.subrange(i, ll) =~= Seq::<TokV>::empty());
        assert(acc + concat_texts(toks.subrange(i, ll)) =~= acc);
    } else {
        let sub = toks.subrange(i, ll);
        assert(sub[0] == toks[i]);
        assert(sub.drop_first() =~= toks.subrange(i + 1, ll));
        assert(concat_texts(sub) == tok_text(toks[i]) + concat_texts(toks.subrange(i + 1, ll)));
        assert(acc + (tok_text(toks[i]) + concat_texts(toks.subrange(i + 1, ll))) =~= (acc
            + tok_text(toks[i])) + concat_texts(toks.subrange(i + 1, ll)));
        assert(body_ok_tok(toks[i], n));
        match toks[i] {
            TokV::RepeatSpecial(c, k) => {
                assert(!(c == '`' && k >= n));
                lemma_body_accum(toks, i + 1, n, m, tag, acc + repeat_char(c, k));
            },
            _ => {
                lemma_body_accum(toks, i + 1, n, m, tag, acc + tok_text(toks[i]));
            },
        }
    }
}

/// Round trip for fenced code: a block whose fence length is at least
/// three, whose kind is what its own tag resolves to, whose tag is
/// empty or one text run, and whose nonempty content keeps newlines
/// away from its edges, holds no closing-length backtick run, and
/// retokenizes to itself, parses back from its serialization
/// unchanged. Parsed blocks have these properties by construction.
pub proof fn lemma_code_fenced_round_trip(v: CodeV)
    requires
        ({
            let n = kind_index(v.kind);
            let tag = kind_tag(v.kind);
            let t = spec_tokenize(v.content);
            n >= 3 && v.kind == spec_increase_indent(kind_of_tag(tag), n) && (tag.len() == 0
                || crate::token::text_like(tag)) && v.content.len() > 0 && v.content[0] != '\n'
                && v.content.last() != '\n' && crate::token::stable_text(v.content) && forall|
                j: int,
            | 0 <= j < t.len() ==> body_ok_tok(#[trigger] t[j], n)
        }),
    ensures
        spec_code_from_str(spec_serialize_code(v)) == Ok::<CodeV, ParseErrorV>(v),
{
    let n = kind_index(v.kind);
    let tag = kind_tag(v.kind);
    let t = spec_tokenize(v.content);
    let toks = spec_tokenize(spec_serialize_code(v));
    lemma_fenced_tokens(v);
    let head: Seq<TokV> = if tag.len() == 0 {
        seq![TokV::RepeatSpecial('`', n), TokV::RepeatSpecial('\n', 1)]
    } else {
        seq![TokV::RepeatSpecial('`', n), TokV::Str(tag), TokV::RepeatSpecial('\n', 1)]
    };
    let h = head.len() as int;
    assert(toks == head + t + seq![TokV::RepeatSpecial('\n', 1), TokV::RepeatSpecial('`', n)]);
    let ll = toks.len() - 1;
    assert(toks[0] == TokV::RepeatSpecial('`', n));
    assert(toks[ll] == TokV::RepeatSpecial('`', n));
    assert(forall|j: int| h <= j < ll - 1 ==> toks[j] == #[trigger] t[j - h]);
    assert(toks[ll - 1] == TokV::RepeatSpecial('\n', 1));
    assert(forall|j: int| h <= j < ll ==> body_ok_tok(#[trigger] toks[j], n));
    lemma_body_accum(toks, h, n, n, seq![] + tag, seq![]);
    assert(toks.subrange(h, ll) =~= t.push(TokV::RepeatSpecial('\n', 1)));
    lemma_concat_snoc(t, TokV::RepeatSpecial('\n', 1));
    assert(tok_text(TokV::RepeatSpecial('\n', 1)) =~= seq!['\n']);
    assert(seq![] + (concat_texts(t) + seq!['\n']) =~= v.content + seq!['\n']);
    assert(seq![] + concat_texts(toks.subrange(h, ll)) == v.content + seq!['\n']);
    assert((v.content + seq!['\n']).last() == '\n');
    assert(trim_nl(v.content + seq!['\n']) =~= v.content);
    assert(seq![] + tag =~= tag);
    assert(spec_code_body(toks, h, n, tag, repeat_char('\n', 0)) == Ok::<_, ParseErrorV>(
        (CodeV { content: v.content, kind: v.kind }, toks.len() as int),
    )) by {
        assert(repeat_char('\n', 0) =~= Seq::<char>::empty());
        assert(spec_code_body(toks, h, n, seq![] + tag, seq![]) == Ok::<_, ParseErrorV>(
            (CodeV { content: v.content, kind: v.kind }, toks.len() as int),
        ));
    }
    reveal_with_fuel(spec_code_tag, 4);
    if tag.len() == 0 {
        assert(toks[1] == TokV::RepeatSpecial('\n', 1));
        assert(spec_code_tag(toks, 1, n, seq![]) == spec_code_body(
            toks,
            2,
            n,
            seq![],
            repeat_char('\n', 0),
        ));
    } else {
        assert(toks[1] == TokV::Str(tag));
        assert(toks[2] == TokV::RepeatSpecial('\n', 1));
        assert(seq![] + tag =~= tag);
        assert(spec_code_tag(toks, 1, n, seq![]) == spec_code_body(
            toks,
            3,
            n,
            tag,
            repeat_char('\n', 0),
        ));
    }
    assert(spec_parse_code(toks) == spec_code_tag(toks, 1, n, seq![]));
    assert(CodeV { content: v.content, kind: v.kind } == v);
}

/// The token shape a fenced block's serialization always takes: the
/// fence, the tag where there is one, a newline, the content's own
/// tokens, and the newline and fence that close it.
proof fn lemma_fenced_tokens(v: CodeV)
    requires
        ({
            let n = kind_index(v.kind);
            let tag = kind_tag(v.kind);
            n >= 3 && (tag.len() == 0 || crate::token::text_like(tag)) && v.content.len() > 0
                && v.content[0] != '\n' && v.content.last() != '\n'
        }),
    ensures
        ({
            let n = kind_index(v.kind);
            let tag = kind_tag(v.kind);
            let t = spec_tokenize(v.content);
            let head: Seq<TokV> = if tag.len() == 0 {
                seq![TokV::RepeatSpecial('`', n), TokV::RepeatSpecial('\n', 1)]
            } else {
                seq![TokV::RepeatSpecial('`', n), TokV::Str(tag), TokV::RepeatSpecial('\n', 1)]
            };
            spec_tokenize(spec_serialize_code(v)) == head + t + seq![
                TokV::RepeatSpecial('\n', 1),
                TokV::RepeatSpecial('`', n),
            ]
        }),
{
    let n = kind_index(v.kind);
    let tag = kind_tag(v.kind);
    let t = spec_tokenize(v.content);
    let a = repeat_char('`', n);
    let nl = repeat_char('\n', 1);
    let back = nl + a;
    let mid = v.content + back;
    crate::token::lemma_scan_run('`', n);
    crate::token::lemma_scan_run('\n', 1);
    // the tail after the content: one newline, then the closing fence
    assert(back[0] == '\n');
    crate::token::lemma_tokenize_split(nl, a);
    crate::token::lemma_tokenize_run('\n', 1);
    crate::token::lemma_tokenize_run('`', n);
    assert(spec_tokenize(back) =~= seq![
        TokV::RepeatSpecial('\n', 1),
        TokV::RepeatSpecial('`', n),
    ]);
    // the content, then that tail
    crate::token::lemma_scan_not_start(crate::token::LexSt::Start, v.content);
    crate::token::lemma_scan_last(crate::token::LexSt::Start, v.content);
    assert(mid[0] == v.content[0]);
    crate::token::lemma_tokenize_split(v.content, back);
    assert(spec_tokenize(mid) =~= t + seq![
        TokV::RepeatSpecial('\n', 1),
        TokV::RepeatSpecial('`', n),
    ]);
    // the newline after the tag line, then all of that
    let line = nl + mid;
    assert(line[0] == '\n');
    assert(mid.len() > 0);
    crate::token::lemma_tokenize_split(nl, mid);
    assert(spec_tokenize(line) =~= seq![TokV::RepeatSpecial('\n', 1)] + t + seq![
        TokV::RepeatSpecial('\n', 1),
        TokV::RepeatSpecial('`', n),
    ]);
    let full = spec_serialize_code(v);
    if tag.len() == 0 {
        assert(full =~= a + line);
        assert(line[0] != '`');
        crate::token::lemma_tokenize_split(a, line);
        assert(spec_tokenize(full) =~= seq![
            TokV::RepeatSpecial('`', n),
            TokV::RepeatSpecial('\n', 1),
        ] + t + seq![TokV::RepeatSpecial('\n', 1), TokV::RepeatSpecial('`', n)]);
    } else {
        let rest = tag + line;
        assert(full =~= a + rest);
        assert(rest[0] == tag[0]);
        crate::token::lemma_tokenize_split(a, rest);
        crate::token::lemma_scan_text(tag);
        crate::token::lemma_tokenize_split(tag, line);
        crate::token::lemma_tokenize_text(tag);
        assert(spec_tokenize(full) =~= seq![
            TokV::RepeatSpecial('`', n),
            TokV::Str(tag),
            TokV::RepeatSpecial('\n', 1),
        ] + t + seq![TokV::RepeatSpecial('\n', 1), TokV::RepeatSpecial('`', n)]);
    }
}

/// The texts of a token sequence with one token appended.
pub proof fn lemma_concat_snoc(ts: Seq<TokV>, t: TokV)
    ensures
        concat_texts(ts.push(t)) == concat_texts(ts) + tok_text(t),
    decreases ts.len(),
{
    if ts.len() == 0 {
        reveal_with_fuel(concat_texts, 3);
        assert(ts.push(t)[0] == t);
        assert(ts.push(t).drop_first() =~= Seq::<TokV>::empty());
        assert(concat_texts(ts.push(t)) =~= tok_text(t));
        assert(concat_texts(ts) + tok_text(t) =~= tok_text(t));
    } else {
        assert(ts.push(t)[0] == ts[0]);
        assert(ts.push(t).drop_first() =~= ts.drop_first().push(t));
        lemma_concat_snoc(ts.drop_first(), t);
        assert(tok_text(ts[0]) + (concat_texts(ts.drop_first()) + tok_text(t)) =~= (tok_text(
            ts[0],
        ) + concat_texts(ts.drop_first())) + tok_text(t));
    }
}

/// What a successful short-fence parse reveals about the tokens: it
/// stopped at a closing fence of at least the opening length, every
/// token on the way was acceptable content, and the content collected
/// exactly their texts.
proof fn lemma_inner_inv(toks: Seq<TokV>, i: int, n: nat, acc: Seq<char>)
    requires
        0 <= i,
    ensures
        spec_parse_inner(toks, i, n, acc) matches Ok(p) ==> i < p.1 <= toks.len() && (toks[p.1
            - 1] matches TokV::RepeatSpecial('`', m) && m >= n) && (forall|k: int|
            i <= k < p.1 - 1 ==> inner_ok_tok(#[trigger] toks[k], n)) && p.0.content == acc
            + concat_texts(toks.subrange(i, p.1 - 1)) && p.0.kind == CodeKindV::Plain(n)
            && p.0.content.len() > 0,
    decreases toks.len() - i,
{
    if i >= toks.len() {
    } else {
        let closes = toks[i] matches TokV::RepeatSpecial('`', m) && m >= n;
        if closes {
            assert(toks.subrange(i, i) =~= Seq::<TokV>::empty());
            assert(acc + concat_texts(toks.subrange(i, i)) =~= acc);
        } else {
            match toks[i] {
                TokV::RepeatSpecial(c, k) => {
                    if c != '\n' {
                        lemma_inner_inv(toks, i + 1, n, acc + repeat_char(c, k));
                        lemma_inner_shift(toks, i, acc);
                    }
                },
                _ => {
                    lemma_inner_inv(toks, i + 1, n, acc + tok_text(toks[i]));
                    lemma_inner_shift(toks, i, acc);
                },
            }
        }
    }
}

/// Shifts an accumulation across one token.
proof fn lemma_inner_shift(toks: Seq<TokV>, i: int, acc: Seq<char>)
    requires
        0 <= i < toks.len(),
    ensures
        forall|e: int|
            i < e <= toks.len() ==> acc + #[trigger] concat_texts(toks.subrange(i, e)) == (acc
                + tok_text(toks[i])) + concat_texts(toks.subrange(i + 1, e)),
{
    assert forall|e: int| i < e <= toks.len() implies acc + #[trigger] concat_texts(
        toks.subrange(i, e),
    ) == (acc + tok_text(toks[i])) + concat_texts(toks.subrange(i + 1, e)) by {
        let sub = toks.subrange(i, e);
        assert(sub[0] == toks[i]);
        assert(sub.drop_first() =~= toks.subrange(i + 1, e));
        assert(concat_texts(sub) == tok_text(toks[i]) + concat_texts(toks.subrange(i + 1, e)));
        assert(acc + (tok_text(toks[i]) + concat_texts(toks.subrange(i + 1, e))) =~= (acc
            + tok_text(toks[i])) + concat_texts(toks.subrange(i + 1, e)));
    }
}

/// The round-trip law for short-fenced code, quantified over parses:
/// any block a whole-input parse produces with a short fence parses
/// back from its serialization unchanged.
pub proof fn lemma_code_parse_round_trip(s: Seq<char>)
    ensures
        spec_code_from_str(s) matches Ok(v) ==> (kind_index(v.kind) <= 2 ==> spec_code_from_str(
            spec_serialize_code(v),
        ) == Ok::<CodeV, ParseErrorV>(v)),
{
    let toks = spec_tokenize(s);
    crate::token::lemma_tokenize_wf(s);
    crate::token::lemma_tokenize_adj(s);
    match spec_code_from_str(s) {
        Ok(v) => {
            if kind_index(v.kind) <= 2 {
                match toks[0] {
                    TokV::RepeatSpecial(c, n) => {
                        if n == 1 || n == 2 {
                            lemma_inner_inv(toks, 1, n, seq![]);
                            match spec_parse_inner(toks, 1, n, seq![]) {
                                Ok(p) => {
                                    let e = p.1 - 1;
                                    assert(seq![] + concat_texts(toks.subrange(1, e))
                                        =~= concat_texts(toks.subrange(1, e)));
                                    assert(v.content == concat_texts(toks.subrange(1, e)));
                                    let sub = toks.subrange(1, e);
                                    assert(sub.len() > 0) by {
                                        if sub.len() == 0 {
                                            assert(v.content =~= Seq::<char>::empty());
                                        }
                                    }
                                    crate::token::lemma_subrange_retok(toks, 1, e);
                                    crate::token::lemma_subrange_edges(toks, 1, e);
                                    assert(forall|j: int|
                                        0 <= j < sub.len() ==> sub[j] == #[trigger] toks[1 + j]);
                                    assert(forall|j: int|
                                        0 <= j < spec_tokenize(v.content).len() ==> inner_ok_tok(
                                            #[trigger] spec_tokenize(v.content)[j],
                                            n,
                                        ));
                                    assert(crate::token::adj_ok(toks[0], toks[1]));
                                    assert(crate::token::adj_ok(toks[e - 1], toks[e]));
                                    crate::token::lemma_edge_not(toks[1], '`');
                                    crate::token::lemma_edge_not(toks[e - 1], '`');
                                    lemma_code_inline_round_trip(v);
                                },
                                Err(_) => {},
                            }
                        } else {
                            lemma_tag_line_idx(toks, 1, n, seq![]);
                        }
                    },
                    _ => {},
                }
            }
        },
        Err(_) => {},
    }
}

} // verus!
