//! Tokens and the tokenizer: a single left-to-right scan that turns
//! source text into maximal runs of one repeated structural character,
//! maximal text runs, and atomic numeric tokens.
use vstd::prelude::*;
use crate::strutil::{push_char, repeat_char};

verus! {

/// One lexical token. Runs of a repeated non-alphanumeric character
/// become `RepeatSpecial(c, n)` with `n >= 1`; maximal letter runs
/// (absorbing interior digits and spaces) become `String`; maximal
/// digit runs, with an optional fractional part after a dot, become
/// `Number`.
#[derive(Debug, Clone, PartialEq, Eq)]
pub enum ParseToken {
    RepeatSpecial(char, usize),
    String(String),
    Number(usize, Option<usize>),
}

/// The abstract value of a token.
pub ghost enum TokV {
    RepeatSpecial(char, nat),
    Str(Seq<char>),
    Number(nat, Option<nat>),
}

impl View for ParseToken {
    type V = TokV;

    open spec fn view(&self) -> TokV {
        match self {
            ParseToken::RepeatSpecial(c, n) => TokV::RepeatSpecial(*c, *n as nat),
            ParseToken::String(s) => TokV::Str(s@),
            ParseToken::Number(p, f) => TokV::Number(
                *p as nat,
                match f {
                    Some(v) => Some(*v as nat),
                    None => None,
                },
            ),
        }
    }
}

/// The abstract values of a token sequence.
pub open spec fn toks_of(ts: Seq<ParseToken>) -> Seq<TokV> {
    ts.map_values(|t: ParseToken| t@)
}

/// The decimal text of a numeric token.
pub open spec fn num_text(p: nat, f: Option<nat>) -> Seq<char> {
    match f {
        None => crate::strutil::decimal_of(p),
        Some(x) => crate::strutil::decimal_of(p) + seq!['.'] + crate::strutil::decimal_of(x),
    }
}

/// The text a token stands for: the repeated character of a run, the
/// characters of a text run, the decimal text of a number.
pub open spec fn tok_text(t: TokV) -> Seq<char> {
    match t {
        TokV::RepeatSpecial(c, n) => crate::strutil::repeat_char(c, n),
        TokV::Str(s) => s,
        TokV::Number(p, f) => num_text(p, f),
    }
}

/// The texts of all tokens of `ts`, concatenated in order.
pub open spec fn concat_texts(ts: Seq<TokV>) -> Seq<char>
    decreases ts.len(),
{
    if ts.len() == 0 {
        seq![]
    } else {
        tok_text(ts[0]) + concat_texts(ts.drop_first())
    }
}

/// The error a token provokes where the grammar cannot accept it: its
/// character for a run, its text for a text or numeric token.
pub open spec fn err_of_tok(t: TokV) -> crate::ParseErrorV {
    match t {
        TokV::RepeatSpecial(c, n) => crate::ParseErrorV::UnexpectedChar(c),
        TokV::Str(s) => crate::ParseErrorV::UnexpectedString(s),
        TokV::Number(p, f) => crate::ParseErrorV::UnexpectedString(num_text(p, f)),
    }
}

impl ParseToken {
    /// The text this token stands for.
    pub fn to_string(&self) -> (r: String)
        ensures
            r@ == tok_text(self@),
    {
        match self {
            ParseToken::RepeatSpecial(c, n) => crate::strutil::repeat_string(*c, *n),
            ParseToken::String(s) => s.clone(),
            ParseToken::Number(p, f) => {
                let mut s = crate::strutil::num_to_string(*p);
                match f {
                    Some(x) => {
                        push_char(&mut s, '.');
                        let fs = crate::strutil::num_to_string(*x);
                        s.append(fs.as_str());
                        proof {
                            assert(s@ =~= tok_text(self@));
                        }
                    },
                    None => {},
                }
                s
            },
        }
    }

    /// The error this token provokes where the grammar cannot accept
    /// it.
    pub fn to_err(&self) -> (r: crate::ParseError)
        ensures
            r@ == err_of_tok(self@),
    {
        match self {
            ParseToken::RepeatSpecial(c, n) => crate::ParseError::UnexpectedChar(*c),
            ParseToken::String(s) => crate::ParseError::UnexpectedString(s.clone()),
            ParseToken::Number(p, f) => crate::ParseError::UnexpectedString(self.to_string()),
        }
    }
}

/// ASCII letters begin and extend text runs.
pub open spec fn is_letter(c: char) -> bool {
    (65 <= c as u32 && c as u32 <= 90) || (97 <= c as u32 && c as u32 <= 122)
}

/// ASCII digits begin numbers and extend text runs and numbers.
pub open spec fn is_digit(c: char) -> bool {
    48 <= c as u32 && c as u32 <= 57
}

/// The value of one decimal digit character.
pub open spec fn digit_val(c: char) -> nat {
    (c as u32 - 48) as nat
}

/// One more digit appended to an accumulated value, saturating at the
/// largest representable number so that the tokenizer stays total.
pub open spec fn push_digit(v: nat, d: nat) -> nat {
    if v <= ((usize::MAX - 9) as nat) / 10 {
        10 * v + d
    } else {
        usize::MAX as nat
    }
}

/// The value of a digit sequence, most significant digit first.
pub open spec fn digits_val(s: Seq<char>) -> nat
    decreases s.len(),
{
    if s.len() == 0 {
        0
    } else {
        push_digit(digits_val(s.drop_last()), digit_val(s.last()))
    }
}

/// The scanner's state between two characters: nothing pending, a
/// pending run of one repeated structural character, a pending text
/// run, or a pending number (integer digits, then fraction digits
/// once a dot was seen).
pub ghost enum LexSt {
    Start,
    Run(char, nat),
    Text(Seq<char>),
    Num(Seq<char>, Option<Seq<char>>),
}

/// The token a pending state turns into when it is cut off.
pub open spec fn num_tok(ip: Seq<char>, fp: Option<Seq<char>>) -> TokV {
    TokV::Number(
        digits_val(ip),
        match fp {
            Some(f) => Some(digits_val(f)),
            None => None,
        },
    )
}

/// The tokens a state emits when the scan ends or the state is cut off.
pub open spec fn lex_flush(st: LexSt) -> Seq<TokV> {
    match st {
        LexSt::Start => seq![],
        LexSt::Run(c, n) => seq![TokV::RepeatSpecial(c, n)],
        LexSt::Text(s) => seq![TokV::Str(s)],
        LexSt::Num(ip, fp) => seq![num_tok(ip, fp)],
    }
}

/// One scanner transition: the tokens emitted on reading `c` in state
/// `st`, and the following state. Letters extend text runs and cut off
/// anything else; digits extend text runs and numbers; a space folds
/// into an open text run and otherwise behaves structurally; a dot
/// after the integer digits of a number opens its fraction; every
/// other character extends or begins a structural run.
pub open spec fn lex_step(st: LexSt, c: char) -> (Seq<TokV>, LexSt) {
    if is_letter(c) {
        match st {
            LexSt::Text(s) => (seq![], LexSt::Text(s.push(c))),
            _ => (lex_flush(st), LexSt::Text(seq![c])),
        }
    } else if is_digit(c) {
        match st {
            LexSt::Text(s) => (seq![], LexSt::Text(s.push(c))),
            LexSt::Num(ip, fp) => match fp {
                None => (seq![], LexSt::Num(ip.push(c), None)),
                Some(f) => (seq![], LexSt::Num(ip, Some(f.push(c)))),
            },
            _ => (lex_flush(st), LexSt::Num(seq![c], None)),
        }
    } else if c == ' ' {
        match st {
            LexSt::Text(s) => (seq![], LexSt::Text(s.push(c))),
            LexSt::Run(r, n) => if r == ' ' {
                (seq![], LexSt::Run(' ', n + 1))
            } else {
                (lex_flush(st), LexSt::Run(' ', 1))
            },
            _ => (lex_flush(st), LexSt::Run(' ', 1)),
        }
    } else if c == '.' {
        match st {
            LexSt::Num(ip, fp) => match fp {
                None => (seq![], LexSt::Num(ip, Some(seq![]))),
                Some(f) => (lex_flush(st), LexSt::Run('.', 1)),
            },
            LexSt::Run(r, n) => if r == '.' {
                (seq![], LexSt::Run('.', n + 1))
            } else {
                (lex_flush(st), LexSt::Run('.', 1))
            },
            _ => (lex_flush(st), LexSt::Run('.', 1)),
        }
    } else {
        match st {
            LexSt::Run(r, n) => if r == c {
                (seq![], LexSt::Run(c, n + 1))
            } else {
                (lex_flush(st), LexSt::Run(c, 1))
            },
            _ => (lex_flush(st), LexSt::Run(c, 1)),
        }
    }
}

/// The scan of `s` from state `st`: all tokens emitted, and the state
/// left pending afterwards.
pub open spec fn lex_scan(st: LexSt, s: Seq<char>) -> (Seq<TokV>, LexSt)
    decreases s.len(),
{
    if s.len() == 0 {
        (seq![], st)
    } else {
        let (t1, st1) = lex_scan(st, s.drop_last());
        let (e, st2) = lex_step(st1, s.last());
        (t1 + e, st2)
    }
}

/// What the tokenizer returns on `s`: the full scan with the pending
/// state flushed at the end.
pub open spec fn spec_tokenize(s: Seq<char>) -> Seq<TokV> {
    let (t, st) = lex_scan(LexSt::Start, s);
    t + lex_flush(st)
}

/// The scanner's exec state; its view is the ghost state.
enum LexState {
    Start,
    Run(char, usize),
    Text(String),
    Num(String, Option<String>),
}

impl View for LexState {
    type V = LexSt;

    closed spec fn view(&self) -> LexSt {
        match self {
            LexState::Start => LexSt::Start,
            LexState::Run(c, n) => LexSt::Run(*c, *n as nat),
            LexState::Text(s) => LexSt::Text(s@),
            LexState::Num(ip, fp) => LexSt::Num(
                ip@,
                match fp {
                    Some(f) => Some(f@),
                    None => None,
                },
            ),
        }
    }
}

/// A state is well formed when its pending digit strings hold digits
/// only, so that their value can be computed at the flush.
pub open spec fn st_wf(st: LexSt) -> bool {
    match st {
        LexSt::Num(ip, fp) => all_digits(ip) && match fp {
            Some(f) => all_digits(f),
            None => true,
        },
        _ => true,
    }
}

/// Every character of `s` is a decimal digit.
pub open spec fn all_digits(s: Seq<char>) -> bool {
    forall|i: int| 0 <= i < s.len() ==> is_digit(#[trigger] s[i])
}

/// The length of a pending run, zero for the other states; it never
/// exceeds the number of characters scanned.
pub open spec fn run_bound(st: LexSt) -> nat {
    match st {
        LexSt::Run(c, n) => n,
        _ => 0,
    }
}

/// One saturating digit step.
fn push_digit_exec(v: usize, d: usize) -> (r: usize)
    requires
        d <= 9,
    ensures
        r as nat == push_digit(v as nat, d as nat),
{
    if v <= (usize::MAX - 9) / 10 {
        v * 10 + d
    } else {
        usize::MAX
    }
}

/// The value of a string of digits.
fn digits_to_usize(s: &str) -> (r: usize)
    requires
        all_digits(s@),
    ensures
        r as nat == digits_val(s@),
{
    let l = s.unicode_len();
    let mut v: usize = 0;
    let mut i: usize = 0;
    while i < l
        invariant
            l == s@.len(),
            i <= l,
            all_digits(s@),
            v as nat == digits_val(s@.take(i as int)),
        decreases l - i,
    {
        let c = s.get_char(i);
        let d = (c as u32 - 48) as usize;
        proof {
            assert(s@.take(i + 1).drop_last() =~= s@.take(i as int));
            assert(s@.take(i + 1).last() == s@[i as int]);
        }
        v = push_digit_exec(v, d);
        i += 1;
    }
    proof {
        assert(s@.take(l as int) =~= s@);
    }
    v
}

/// Emits the pending state's token, if any.
fn flush_push(st: LexState, tokens: &mut Vec<ParseToken>)
    requires
        st_wf(st@),
    ensures
        toks_of(final(tokens)@) =~= toks_of(old(tokens)@) + lex_flush(st@),
{
    match st {
        LexState::Start => {},
        LexState::Run(c, n) => {
            tokens.push(ParseToken::RepeatSpecial(c, n));
        },
        LexState::Text(s) => {
            tokens.push(ParseToken::String(s));
        },
        LexState::Num(ip, fp) => {
            let p = digits_to_usize(ip.as_str());
            let f = match fp {
                Some(fs) => Some(digits_to_usize(fs.as_str())),
                None => None,
            };
            tokens.push(ParseToken::Number(p, f));
        },
    }
    proof {
        assert(toks_of(tokens@) =~= toks_of(old(tokens)@) + lex_flush(st@));
    }
}

/// One scanner transition on the exec state, pushing the emitted
/// tokens; mirrors `lex_step`.
fn process_char(st: LexState, c: char, tokens: &mut Vec<ParseToken>) -> (r: LexState)
    requires
        st_wf(st@),
        run_bound(st@) < usize::MAX,
    ensures
        toks_of(final(tokens)@) =~= toks_of(old(tokens)@) + lex_step(st@, c).0,
        r@ == lex_step(st@, c).1,
        st_wf(r@),
{
    let cu = c as u32;
    if (65 <= cu && cu <= 90) || (97 <= cu && cu <= 122) {
        match st {
            LexState::Text(mut s) => {
                push_char(&mut s, c);
                LexState::Text(s)
            },
            other => {
                flush_push(other, tokens);
                let mut s = String::new();
                push_char(&mut s, c);
                proof {
                    assert(s@ =~= seq![c]);
                }
                LexState::Text(s)
            },
        }
    } else if 48 <= cu && cu <= 57 {
        match st {
            LexState::Text(mut s) => {
                push_char(&mut s, c);
                LexState::Text(s)
            },
            LexState::Num(mut ip, fp) => {
                match fp {
                    None => {
                        push_char(&mut ip, c);
                        LexState::Num(ip, None)
                    },
                    Some(mut f) => {
                        push_char(&mut f, c);
                        LexState::Num(ip, Some(f))
                    },
                }
            },
            other => {
                flush_push(other, tokens);
                let mut s = String::new();
                push_char(&mut s, c);
                proof {
                    assert(s@ =~= seq![c]);
                }
                LexState::Num(s, None)
            },
        }
    } else if c == ' ' {
        match st {
            LexState::Text(mut s) => {
                push_char(&mut s, c);
                LexState::Text(s)
            },
            LexState::Run(r0, n) => {
                if r0 == ' ' {
                    LexState::Run(' ', n + 1)
                } else {
                    flush_push(LexState::Run(r0, n), tokens);
                    LexState::Run(' ', 1)
                }
            },
            other => {
                flush_push(other, tokens);
                LexState::Run(' ', 1)
            },
        }
    } else if c == '.' {
        match st {
            LexState::Num(ip, fp) => {
                match fp {
                    None => LexState::Num(ip, Some(String::new())),
                    Some(f) => {
                        flush_push(LexState::Num(ip, Some(f)), tokens);
                        LexState::Run('.', 1)
                    },
                }
            },
            LexState::Run(r0, n) => {
                if r0 == '.' {
                    LexState::Run('.', n + 1)
                } else {
                    flush_push(LexState::Run(r0, n), tokens);
                    LexState::Run('.', 1)
                }
            },
            other => {
                flush_push(other, tokens);
                LexState::Run('.', 1)
            },
        }
    } else {
        match st {
            LexState::Run(r0, n) => {
                if r0 == c {
                    LexState::Run(c, n + 1)
                } else {
                    flush_push(LexState::Run(r0, n), tokens);
                    LexState::Run(c, 1)
                }
            },
            other => {
                flush_push(other, tokens);
                LexState::Run(c, 1)
            },
        }
    }
}

/// The trailing-token check every construct's parse ends with: a
/// parse that stops short of the end of the token sequence is not
/// accepted, and the first leftover token names the error.
pub open spec fn spec_finish<T>(r: Result<(T, int), crate::ParseErrorV>, toks: Seq<TokV>) -> Result<
    T,
    crate::ParseErrorV,
> {
    match r {
        Ok((v, i)) => if i == toks.len() {
            Ok(v)
        } else {
            Err(err_of_tok(toks[i]))
        },
        Err(e) => Err(e),
    }
}

/// Scans `s` once, left to right, and returns its tokens. Total: every
/// input tokenizes, and malformed text is simply tokenized literally.
pub fn tokenize(s: &str) -> (r: Vec<ParseToken>)
    ensures
        toks_of(r@) == spec_tokenize(s@),
{
    let l = s.unicode_len();
    let mut tokens: Vec<ParseToken> = Vec::new();
    let mut st = LexState::Start;
    let mut i: usize = 0;
    while i < l
        invariant
            l == s@.len(),
            i <= l,
            st_wf(st@),
            run_bound(st@) <= i as nat,
            toks_of(tokens@) == lex_scan(LexSt::Start, s@.take(i as int)).0,
            st@ == lex_scan(LexSt::Start, s@.take(i as int)).1,
        decreases l - i,
    {
        let c = s.get_char(i);
        proof {
            assert(s@.take(i + 1).drop_last() =~= s@.take(i as int));
            assert(s@.take(i + 1).last() == s@[i as int]);
        }
        st = process_char(st, c, &mut tokens);
        i += 1;
    }
    flush_push(st, &mut tokens);
    proof {
        assert(s@.take(l as int) =~= s@);
    }
    tokens
}

/// A text run as the tokenizer produces it: nonempty, opened by a
/// letter, extended by letters, digits and spaces only.
pub open spec fn text_like(s: Seq<char>) -> bool {
    s.len() > 0 && is_letter(s[0]) && forall|i: int|
        0 <= i < s.len() ==> is_letter(#[trigger] s[i]) || is_digit(s[i]) || s[i] == ' '
}

/// Text whose tokens spell it back exactly: retokenizing loses
/// nothing, so such text survives a serialize-and-reparse unchanged.
pub open spec fn stable_text(s: Seq<char>) -> bool {
    concat_texts(spec_tokenize(s)) == s
}

/// Whether reading `c` extends the pending state instead of cutting a
/// token off; mirrors `lex_step` case by case.
pub open spec fn st_extends(st: LexSt, c: char) -> bool {
    match st {
        LexSt::Start => false,
        LexSt::Run(r, n) => !is_letter(c) && !is_digit(c) && c == r,
        LexSt::Text(t) => is_letter(c) || is_digit(c) || c == ' ',
        LexSt::Num(ip, fp) => is_digit(c) || (c == '.' && fp is None),
    }
}

/// The character the pending state ends with.
pub open spec fn st_last(st: LexSt) -> char {
    match st {
        LexSt::Start => ' ',
        LexSt::Run(c, n) => c,
        LexSt::Text(t) => if t.len() > 0 {
            t.last()
        } else {
            ' '
        },
        LexSt::Num(ip, fp) => match fp {
            Option::None => if ip.len() > 0 {
                ip.last()
            } else {
                ' '
            },
            Some(f) => if f.len() > 0 {
                f.last()
            } else {
                '.'
            },
        },
    }
}

/// Scanning a concatenation scans the first part and goes on from the
/// state it leaves.
pub proof fn lemma_scan_append(st: LexSt, a: Seq<char>, b: Seq<char>)
    ensures
        lex_scan(st, a + b).0 == lex_scan(st, a).0 + lex_scan(lex_scan(st, a).1, b).0,
        lex_scan(st, a + b).1 == lex_scan(lex_scan(st, a).1, b).1,
    decreases b.len(),
{
    let st1 = lex_scan(st, a).1;
    if b.len() == 0 {
        assert(a + b =~= a);
        assert(lex_scan(st, a).0 + lex_scan(st1, b).0 =~= lex_scan(st, a).0);
    } else {
        lemma_scan_append(st, a, b.drop_last());
        assert((a + b).drop_last() =~= a + b.drop_last());
        assert((a + b).last() == b.last());
        let tmid = lex_scan(st1, b.drop_last());
        let e = lex_step(tmid.1, b.last());
        assert(lex_scan(st, a).0 + (tmid.0 + e.0) =~= (lex_scan(st, a).0 + tmid.0) + e.0);
    }
}

/// One transition never returns to the empty state.
pub proof fn lemma_step_not_start(st: LexSt, c: char)
    ensures
        !(lex_step(st, c).1 is Start),
{
}

/// A scan that starts pending, or reads at least one character, ends
/// pending.
pub proof fn lemma_scan_not_start(st: LexSt, s: Seq<char>)
    requires
        !(st is Start) || s.len() > 0,
    ensures
        !(lex_scan(st, s).1 is Start),
    decreases s.len(),
{
    if s.len() > 0 {
        if s.len() == 1 {
            lemma_step_not_start(lex_scan(st, s.drop_last()).1, s.last());
        } else {
            lemma_scan_not_start(st, s.drop_last());
            lemma_step_not_start(lex_scan(st, s.drop_last()).1, s.last());
        }
    }
}

/// The tokens of a nonempty input are never empty.
pub proof fn lemma_tokenize_nonempty(s: Seq<char>)
    requires
        s.len() > 0,
    ensures
        spec_tokenize(s).len() > 0,
{
    lemma_scan_not_start(LexSt::Start, s);
}

/// A character that does not extend the pending state cuts its token
/// off and goes on as from the empty state.
pub proof fn lemma_step_flush(st: LexSt, c: char)
    requires
        !(st is Start),
        !st_extends(st, c),
    ensures
        lex_step(st, c).0 == lex_flush(st),
        lex_step(st, c).1 == lex_step(LexSt::Start, c).1,
{
}

/// A scan whose first character does not extend the pending state
/// emits that state's token and then scans as from the empty state.
pub proof fn lemma_scan_flush(st: LexSt, s: Seq<char>)
    requires
        !(st is Start),
        s.len() > 0,
        !st_extends(st, s[0]),
    ensures
        lex_scan(st, s).0 == lex_flush(st) + lex_scan(LexSt::Start, s).0,
        lex_scan(st, s).1 == lex_scan(LexSt::Start, s).1,
    decreases s.len(),
{
    if s.len() == 1 {
        reveal_with_fuel(lex_scan, 3);
        assert(s.drop_last() =~= Seq::<char>::empty());
        assert(s.last() == s[0]);
        lemma_step_flush(st, s[0]);
        assert(lex_scan(st, s).0 =~= lex_flush(st) + lex_scan(LexSt::Start, s).0);
    } else {
        assert(s.drop_last()[0] == s[0]);
        lemma_scan_flush(st, s.drop_last());
        let a0 = lex_scan(LexSt::Start, s.drop_last()).0;
        let e = lex_step(lex_scan(LexSt::Start, s.drop_last()).1, s.last());
        assert((lex_flush(st) + a0) + e.0 =~= lex_flush(st) + (a0 + e.0));
    }
}

/// One transition leaves a state that ends with the character read.
pub proof fn lemma_step_last(st: LexSt, c: char)
    ensures
        st_last(lex_step(st, c).1) == c,
{
}

/// A nonempty scan leaves a state that ends with the last character
/// read.
pub proof fn lemma_scan_last(st: LexSt, s: Seq<char>)
    requires
        s.len() > 0,
    ensures
        st_last(lex_scan(st, s).1) == s.last(),
{
    lemma_step_last(lex_scan(st, s.drop_last()).1, s.last());
}

/// A run of one structural character scans to a single pending run.
pub proof fn lemma_scan_run(c: char, k: nat)
    requires
        !is_letter(c),
        !is_digit(c),
        k >= 1,
    ensures
        lex_scan(LexSt::Start, repeat_char(c, k)) == (Seq::<TokV>::empty(), LexSt::Run(c, k)),
    decreases k,
{
    let s = repeat_char(c, k);
    reveal_with_fuel(lex_scan, 3);
    if k == 1 {
        assert(s.drop_last() =~= Seq::<char>::empty());
        assert(s.last() == c);
        assert(lex_scan(LexSt::Start, s).0 =~= Seq::<TokV>::empty());
    } else {
        lemma_scan_run(c, (k - 1) as nat);
        assert(s.drop_last() =~= repeat_char(c, (k - 1) as nat));
        assert(s.last() == c);
        assert(lex_scan(LexSt::Start, s).0 =~= Seq::<TokV>::empty());
    }
}

/// A text run scans to a single pending text state.
pub proof fn lemma_scan_text(s: Seq<char>)
    requires
        text_like(s),
    ensures
        lex_scan(LexSt::Start, s) == (Seq::<TokV>::empty(), LexSt::Text(s)),
    decreases s.len(),
{
    reveal_with_fuel(lex_scan, 3);
    if s.len() == 1 {
        assert(s.drop_last() =~= Seq::<char>::empty());
        assert(s.last() == s[0]);
        assert(seq![s[0]] =~= s);
        assert(lex_scan(LexSt::Start, s).0 =~= Seq::<TokV>::empty());
    } else {
        assert(text_like(s.drop_last()));
        lemma_scan_text(s.drop_last());
        assert(is_letter(s.last()) || is_digit(s.last()) || s.last() == ' ');
        assert(s.drop_last().push(s.last()) =~= s);
        assert(lex_scan(LexSt::Start, s).0 =~= Seq::<TokV>::empty());
    }
}

/// A run of one structural character tokenizes to that single token.
pub proof fn lemma_tokenize_run(c: char, k: nat)
    requires
        !is_letter(c),
        !is_digit(c),
        k >= 1,
    ensures
        spec_tokenize(repeat_char(c, k)) == seq![TokV::RepeatSpecial(c, k)],
{
    lemma_scan_run(c, k);
    assert(spec_tokenize(repeat_char(c, k)) =~= seq![TokV::RepeatSpecial(c, k)]);
}

/// A text run tokenizes to that single token, and is stable.
pub proof fn lemma_tokenize_text(s: Seq<char>)
    requires
        text_like(s),
    ensures
        spec_tokenize(s) == seq![TokV::Str(s)],
        stable_text(s),
{
    lemma_scan_text(s);
    assert(spec_tokenize(s) =~= seq![TokV::Str(s)]);
    assert(concat_texts(seq![TokV::Str(s)].drop_first()) == Seq::<char>::empty());
    assert(seq![TokV::Str(s)].drop_first() =~= Seq::<TokV>::empty());
    assert(concat_texts(seq![TokV::Str(s)]) =~= s);
}

/// Tokenizing a concatenation splits at the seam when the second
/// part's first character cannot extend what the first part left
/// pending.
pub proof fn lemma_tokenize_split(a: Seq<char>, b: Seq<char>)
    requires
        a.len() > 0,
        b.len() > 0,
        !st_extends(lex_scan(LexSt::Start, a).1, b[0]),
    ensures
        spec_tokenize(a + b) == spec_tokenize(a) + spec_tokenize(b),
{
    let sta = lex_scan(LexSt::Start, a).1;
    lemma_scan_not_start(LexSt::Start, a);
    lemma_scan_append(LexSt::Start, a, b);
    lemma_scan_flush(sta, b);
    let ta = lex_scan(LexSt::Start, a).0;
    let tb = lex_scan(LexSt::Start, b).0;
    let stb = lex_scan(LexSt::Start, b).1;
    assert(lex_scan(LexSt::Start, a + b).0 == ta + (lex_flush(sta) + tb));
    assert(lex_scan(LexSt::Start, a + b).1 == stb);
    assert(ta + (lex_flush(sta) + tb) + lex_flush(stb) =~= (ta + lex_flush(sta)) + (tb
        + lex_flush(stb)));
}

/// What holds of every token the tokenizer emits: runs are nonempty
/// runs of structural characters, and text runs are text-like.
pub open spec fn tok_wf(t: TokV) -> bool {
    match t {
        TokV::RepeatSpecial(c, n) => !is_letter(c) && !is_digit(c) && n >= 1,
        TokV::Str(s) => text_like(s),
        TokV::Number(p, f) => num_value_ok(p) && match f {
            Some(x) => num_value_ok(x),
            Option::None => true,
        },
    }
}

/// What holds of every pending state the scanner passes through.
pub open spec fn st_ok(st: LexSt) -> bool {
    match st {
        LexSt::Start => true,
        LexSt::Run(c, n) => !is_letter(c) && !is_digit(c) && n >= 1,
        LexSt::Text(t) => text_like(t),
        LexSt::Num(ip, fp) => true,
    }
}

/// One transition preserves the state invariant and emits only well
/// formed tokens.
pub proof fn lemma_step_wf(st: LexSt, c: char)
    requires
        st_ok(st),
        st_wf(st),
    ensures
        st_ok(lex_step(st, c).1),
        st_wf(lex_step(st, c).1),
        forall|j: int|
            0 <= j < lex_step(st, c).0.len() ==> tok_wf(#[trigger] lex_step(st, c).0[j]),
{
    match st {
        LexSt::Num(ip, fp) => {
            lemma_digits_val_ok(ip);
            match fp {
                Some(f) => {
                    lemma_digits_val_ok(f);
                },
                Option::None => {},
            }
        },
        _ => {},
    }
    match st {
        LexSt::Text(t) => {
            if is_letter(c) || is_digit(c) || c == ' ' {
                assert(t.push(c)[0] == t[0]);
                assert(forall|i: int|
                    0 <= i < t.push(c).len() ==> is_letter(#[trigger] t.push(c)[i]) || is_digit(
                        t.push(c)[i],
                    ) || t.push(c)[i] == ' ') by {
                    assert(forall|i: int| 0 <= i < t.len() ==> t.push(c)[i] == #[trigger] t[i]);
                }
            }
        },
        _ => {},
    }
    if is_letter(c) {
        assert(text_like(seq![c]));
    }
}

/// A whole scan preserves the state invariant and emits only well
/// formed tokens.
pub proof fn lemma_scan_wf(st: LexSt, s: Seq<char>)
    requires
        st_ok(st),
        st_wf(st),
    ensures
        st_ok(lex_scan(st, s).1),
        st_wf(lex_scan(st, s).1),
        forall|j: int| 0 <= j < lex_scan(st, s).0.len() ==> tok_wf(#[trigger] lex_scan(st, s).0[j]),
    decreases s.len(),
{
    if s.len() > 0 {
        lemma_scan_wf(st, s.drop_last());
        let mid = lex_scan(st, s.drop_last());
        lemma_step_wf(mid.1, s.last());
        let e = lex_step(mid.1, s.last());
        assert(forall|j: int|
            0 <= j < (mid.0 + e.0).len() ==> tok_wf(#[trigger] (mid.0 + e.0)[j])) by {
            assert(forall|j: int| 0 <= j < mid.0.len() ==> (mid.0 + e.0)[j] == #[trigger] mid.0[j]);
            assert(forall|j: int|
                mid.0.len() <= j < (mid.0 + e.0).len() ==> (mid.0 + e.0)[j] == #[trigger] e.0[j
                    - mid.0.len()]);
        }
    }
}

/// Every token the tokenizer emits is well formed; in particular every
/// text token's characters form one text-like run.
pub proof fn lemma_tokenize_wf(s: Seq<char>)
    ensures
        forall|j: int| 0 <= j < spec_tokenize(s).len() ==> tok_wf(#[trigger] spec_tokenize(s)[j]),
{
    lemma_scan_wf(LexSt::Start, s);
    let p = lex_scan(LexSt::Start, s);
    lemma_flush_wf(p.1);
    assert(forall|j: int| 0 <= j < lex_flush(p.1).len() ==> tok_wf(#[trigger] lex_flush(p.1)[j]));
    assert(forall|j: int|
        0 <= j < spec_tokenize(s).len() ==> tok_wf(#[trigger] spec_tokenize(s)[j])) by {
        assert(forall|j: int| 0 <= j < p.0.len() ==> spec_tokenize(s)[j] == #[trigger] p.0[j]);
        assert(forall|j: int|
            p.0.len() <= j < spec_tokenize(s).len() ==> spec_tokenize(s)[j]
                == #[trigger] lex_flush(p.1)[j - p.0.len()]);
    }
}

/// A number value the tokenizer can emit: rendering it in decimal and
/// reading the digits back yields the value again. Saturation makes
/// this a restriction on values near the top of the range, all of
/// which the tokenizer collapses to the maximum.
pub open spec fn num_value_ok(p: nat) -> bool {
    digits_val(crate::strutil::decimal_of(p)) == p
}

/// Every character of a decimal rendering is a digit.
pub proof fn lemma_decimal_digits(v: nat)
    ensures
        all_digits(crate::strutil::decimal_of(v)),
        crate::strutil::decimal_of(v).len() > 0,
    decreases v,
{
    let d = crate::strutil::decimal_of(v);
    if v < 10 {
        assert(is_digit(crate::strutil::digit_char(v)));
        assert(forall|i: int| 0 <= i < d.len() ==> is_digit(#[trigger] d[i]));
    } else {
        lemma_decimal_digits(v / 10);
        let dd = crate::strutil::decimal_of(v / 10);
        assert(is_digit(crate::strutil::digit_char(v % 10)));
        assert(forall|i: int| 0 <= i < d.len() ==> is_digit(#[trigger] d[i])) by {
            assert(forall|i: int| 0 <= i < dd.len() ==> d[i] == #[trigger] dd[i]);
            assert(d[d.len() - 1] == crate::strutil::digit_char(v % 10));
        }
    }
}

/// Whatever digits are accumulated, the resulting value reads back to
/// itself: the saturating accumulation lands either on an exactly
/// representable value or on the maximum, and both survive the round
/// trip.
pub proof fn lemma_digits_val_ok(s: Seq<char>)
    requires
        all_digits(s),
    ensures
        num_value_ok(digits_val(s)),
    decreases s.len(),
{
    if s.len() == 0 {
        lemma_decimal_roundtrip(0);
    } else {
        assert(all_digits(s.drop_last())) by {
            assert(forall|i: int|
                0 <= i < s.drop_last().len() ==> s.drop_last()[i] == #[trigger] s[i]);
        }
        lemma_digits_val_ok(s.drop_last());
        assert(is_digit(s.last()));
        lemma_push_digit_range(digits_val(s.drop_last()), digit_val(s.last()));
    }
}

/// One saturating digit step lands on a value that reads back to
/// itself.
proof fn lemma_push_digit_range(v: nat, d: nat)
    requires
        d <= 9,
    ensures
        num_value_ok(push_digit(v, d)),
{
    let thresh = ((usize::MAX - 9) as nat) / 10;
    if v <= thresh {
        assert(10 * v + d <= 10 * thresh + d);
        lemma_decimal_roundtrip(10 * v + d);
    } else {
        lemma_decimal_roundtrip(usize::MAX as nat);
    }
}

/// Values up to ten times the saturation threshold plus nine, and the
/// maximum itself, render and read back exactly.
proof fn lemma_decimal_roundtrip(v: nat)
    requires
        v <= 10 * (((usize::MAX - 9) as nat) / 10) + 9 || v == usize::MAX as nat,
    ensures
        num_value_ok(v),
    decreases v,
{
    let thresh = ((usize::MAX - 9) as nat) / 10;
    let d = crate::strutil::decimal_of(v);
    if v < 10 {
        reveal_with_fuel(digits_val, 3);
        assert(d =~= seq![crate::strutil::digit_char(v)]);
        assert(d.drop_last() =~= Seq::<char>::empty());
        assert(digit_val(crate::strutil::digit_char(v)) == v);
        assert(digits_val(d) == push_digit(0, v));
    } else {
        assert(v / 10 <= thresh + 1) by (nonlinear_arith)
            requires
                v <= 10 * thresh + 9 || v == usize::MAX as nat,
                thresh == ((usize::MAX - 9) as nat) / 10,
        ;
        lemma_decimal_roundtrip(v / 10);
        let dd = crate::strutil::decimal_of(v / 10);
        assert(d == dd.push(crate::strutil::digit_char(v % 10)));
        assert(d.drop_last() =~= dd);
        assert(d.last() == crate::strutil::digit_char(v % 10));
        assert(v % 10 < 10);
        assert(digit_val(crate::strutil::digit_char(v % 10)) == v % 10);
        assert(digits_val(d) == push_digit(v / 10, v % 10));
        if v / 10 <= thresh {
            assert(10 * (v / 10) + v % 10 == v) by (nonlinear_arith);
            assert(digits_val(d) == v);
        } else {
            assert(v >= 10 * (thresh + 1)) by (nonlinear_arith)
                requires
                    v / 10 >= thresh + 1,
            ;
            assert(v == usize::MAX as nat) by (nonlinear_arith)
                requires
                    v >= 10 * (thresh + 1),
                    v <= 10 * thresh + 9 || v == usize::MAX as nat,
                    thresh == ((usize::MAX - 9) as nat) / 10,
            ;
            assert(digits_val(d) == usize::MAX as nat);
        }
    }
}

/// The flush of a well formed state is a well formed token.
proof fn lemma_flush_wf(st: LexSt)
    requires
        st_ok(st),
        st_wf(st),
    ensures
        forall|j: int| 0 <= j < lex_flush(st).len() ==> tok_wf(#[trigger] lex_flush(st)[j]),
{
    match st {
        LexSt::Num(ip, fp) => {
            lemma_digits_val_ok(ip);
            match fp {
                Some(f) => {
                    lemma_digits_val_ok(f);
                },
                Option::None => {},
            }
        },
        _ => {},
    }
}

/// The pending state the scanner is left in after reading exactly one
/// token's text from the empty state.
pub open spec fn pending_of(t: TokV) -> LexSt {
    match t {
        TokV::RepeatSpecial(c, n) => LexSt::Run(c, n),
        TokV::Str(s) => LexSt::Text(s),
        TokV::Number(p, f) => LexSt::Num(
            crate::strutil::decimal_of(p),
            match f {
                Some(x) => Some(crate::strutil::decimal_of(x)),
                Option::None => Option::None,
            },
        ),
    }
}

/// A digit string scans from the empty state to a pending number.
proof fn lemma_scan_digits(ds: Seq<char>)
    requires
        all_digits(ds),
        ds.len() > 0,
    ensures
        lex_scan(LexSt::Start, ds) == (Seq::<TokV>::empty(), LexSt::Num(ds, Option::None)),
    decreases ds.len(),
{
    reveal_with_fuel(lex_scan, 3);
    if ds.len() == 1 {
        assert(ds.drop_last() =~= Seq::<char>::empty());
        assert(ds.last() == ds[0]);
        assert(is_digit(ds[0]));
        assert(seq![ds[0]] =~= ds);
        assert(lex_scan(LexSt::Start, ds).0 =~= Seq::<TokV>::empty());
    } else {
        assert(all_digits(ds.drop_last())) by {
            assert(forall|i: int|
                0 <= i < ds.drop_last().len() ==> ds.drop_last()[i] == #[trigger] ds[i]);
        }
        lemma_scan_digits(ds.drop_last());
        assert(is_digit(ds.last()));
        assert(ds.drop_last().push(ds.last()) =~= ds);
        assert(lex_scan(LexSt::Start, ds).0 =~= Seq::<TokV>::empty());
    }
}

/// Fraction digits extend a pending number's fraction.
proof fn lemma_scan_frac(ip: Seq<char>, f0: Seq<char>, fs: Seq<char>)
    requires
        all_digits(fs),
    ensures
        lex_scan(LexSt::Num(ip, Some(f0)), fs) == (
            Seq::<TokV>::empty(),
            LexSt::Num(ip, Some(f0 + fs)),
        ),
    decreases fs.len(),
{
    reveal_with_fuel(lex_scan, 3);
    if fs.len() == 0 {
        assert(f0 + fs =~= f0);
        assert(lex_scan(LexSt::Num(ip, Some(f0)), fs).0 =~= Seq::<TokV>::empty());
    } else {
        assert(all_digits(fs.drop_last())) by {
            assert(forall|i: int|
                0 <= i < fs.drop_last().len() ==> fs.drop_last()[i] == #[trigger] fs[i]);
        }
        lemma_scan_frac(ip, f0, fs.drop_last());
        assert(is_digit(fs.last()));
        assert((f0 + fs.drop_last()).push(fs.last()) =~= f0 + fs);
        assert(lex_scan(LexSt::Num(ip, Some(f0)), fs).0 =~= Seq::<TokV>::empty());
    }
}

/// One well formed token's text scans from the empty state to exactly
/// the pending state that flushes back to that token.
pub proof fn lemma_scan_tok(t: TokV)
    requires
        tok_wf(t),
    ensures
        lex_scan(LexSt::Start, tok_text(t)) == (Seq::<TokV>::empty(), pending_of(t)),
        lex_flush(pending_of(t)) == seq![t],
{
    match t {
        TokV::RepeatSpecial(c, n) => {
            lemma_scan_run(c, n);
        },
        TokV::Str(s) => {
            lemma_scan_text(s);
        },
        TokV::Number(p, f) => {
            let dp = crate::strutil::decimal_of(p);
            lemma_decimal_digits(p);
            lemma_scan_digits(dp);
            match f {
                Option::None => {
                    assert(num_tok(dp, Option::None) == TokV::Number(
                        digits_val(dp),
                        Option::None,
                    ));
                    assert(digits_val(dp) == p);
                },
                Some(x) => {
                    let dx = crate::strutil::decimal_of(x);
                    lemma_decimal_digits(x);
                    let dot = seq!['.'];
                    lemma_scan_append(LexSt::Start, dp, dot + dx);
                    lemma_scan_append(LexSt::Num(dp, Option::None), dot, dx);
                    assert(tok_text(t) =~= dp + (dot + dx));
                    reveal_with_fuel(lex_scan, 3);
                    assert(dot.drop_last() =~= Seq::<char>::empty());
                    assert(dot.last() == '.');
                    assert(lex_scan(LexSt::Num(dp, Option::None), dot) == (
                        Seq::<TokV>::empty(),
                        LexSt::Num(dp, Some(Seq::<char>::empty())),
                    )) by {
                        assert(lex_scan(LexSt::Num(dp, Option::None), dot).0
                            =~= Seq::<TokV>::empty());
                    }
                    lemma_scan_frac(dp, Seq::<char>::empty(), dx);
                    assert(Seq::<char>::empty() + dx =~= dx);
                    assert(lex_scan(LexSt::Start, tok_text(t)).0 =~= Seq::<TokV>::empty());
                    assert(digits_val(dp) == p);
                    assert(digits_val(dx) == x);
                },
            }
        },
    }
}

/// Whether token `b` may stand directly after token `a` in the
/// tokenizer's output: runs of the same character never touch, a text
/// run is only ever cut off by a structural run that is not a space,
/// and a number is never followed by another number, nor - while its
/// fraction is still open - by a dot run.
pub open spec fn adj_ok(a: TokV, b: TokV) -> bool {
    match a {
        TokV::RepeatSpecial(c, _) => match b {
            TokV::RepeatSpecial(d, _) => d != c,
            _ => true,
        },
        TokV::Str(_) => match b {
            TokV::RepeatSpecial(d, _) => d != ' ',
            _ => false,
        },
        TokV::Number(_, fp) => match b {
            TokV::Number(_, _) => false,
            TokV::RepeatSpecial(d, _) => fp is None ==> d != '.',
            TokV::Str(_) => true,
        },
    }
}

/// Every pair of neighbouring tokens is acceptable.
pub open spec fn pairwise_adj(ts: Seq<TokV>) -> bool {
    forall|j: int| 0 <= j < ts.len() - 1 ==> adj_ok(#[trigger] ts[j], ts[j + 1])
}

/// The token a pending state stands for; the empty state has none.
pub open spec fn st_tok(st: LexSt) -> TokV {
    match st {
        LexSt::Start => TokV::RepeatSpecial(' ', 0),
        LexSt::Run(c, n) => TokV::RepeatSpecial(c, n),
        LexSt::Text(s) => TokV::Str(s),
        LexSt::Num(ip, fp) => num_tok(ip, fp),
    }
}

/// The neighbourhood invariant a scan maintains: the tokens emitted so
/// far are pairwise acceptable, the pending token may follow the last
/// of them, and nothing is pending only before the first character.
pub open spec fn adj_inv(toks: Seq<TokV>, st: LexSt) -> bool {
    &&& pairwise_adj(toks)
    &&& (st is Start ==> toks.len() == 0)
    &&& (!(st is Start) && toks.len() > 0 ==> adj_ok(toks.last(), st_tok(st)))
}

/// One transition maintains the neighbourhood invariant.
proof fn lemma_step_adj(toks: Seq<TokV>, st: LexSt, c: char)
    requires
        adj_inv(toks, st),
    ensures
        adj_inv(toks + lex_step(st, c).0, lex_step(st, c).1),
{
    let e = lex_step(st, c).0;
    let st2 = lex_step(st, c).1;
    let toks2 = toks + e;
    if e.len() == 0 {
        assert(toks2 =~= toks);
    } else {
        assert(e =~= lex_flush(st));
        assert(!(st is Start));
        assert(e == seq![st_tok(st)]);
        assert(toks2.last() == st_tok(st));
        assert(forall|j: int| 0 <= j < toks.len() ==> toks2[j] == #[trigger] toks[j]);
        assert(pairwise_adj(toks2)) by {
            assert(forall|j: int|
                0 <= j < toks2.len() - 1 ==> adj_ok(#[trigger] toks2[j], toks2[j + 1])) by {
                assert(forall|j: int|
                    0 <= j < toks.len() - 1 ==> adj_ok(#[trigger] toks[j], toks[j + 1]));
                if toks.len() > 0 {
                    assert(adj_ok(toks2[toks.len() - 1], toks2[toks.len() as int]));
                }
            }
        }
        assert(adj_ok(st_tok(st), st_tok(st2)));
    }
}

/// A whole scan maintains the neighbourhood invariant.
proof fn lemma_scan_adj(toks: Seq<TokV>, st: LexSt, s: Seq<char>)
    requires
        adj_inv(toks, st),
    ensures
        adj_inv(toks + lex_scan(st, s).0, lex_scan(st, s).1),
    decreases s.len(),
{
    if s.len() == 0 {
        assert(toks + lex_scan(st, s).0 =~= toks);
    } else {
        lemma_scan_adj(toks, st, s.drop_last());
        let mid = lex_scan(st, s.drop_last());
        lemma_step_adj(toks + mid.0, mid.1, s.last());
        assert((toks + mid.0) + lex_step(mid.1, s.last()).0 =~= toks + (mid.0 + lex_step(
            mid.1,
            s.last(),
        ).0));
    }
}

/// Neighbouring tokens of the tokenizer's output are always
/// acceptable to one another.
pub proof fn lemma_tokenize_adj(s: Seq<char>)
    ensures
        pairwise_adj(spec_tokenize(s)),
{
    lemma_scan_adj(Seq::<TokV>::empty(), LexSt::Start, s);
    let p = lex_scan(LexSt::Start, s);
    assert(Seq::<TokV>::empty() + p.0 =~= p.0);
    let out = spec_tokenize(s);
    if p.1 is Start {
        assert(out =~= p.0);
    } else {
        assert(lex_flush(p.1) == seq![st_tok(p.1)]);
        assert(forall|j: int| 0 <= j < p.0.len() ==> out[j] == #[trigger] p.0[j]);
        assert(out.len() == p.0.len() + 1);
        assert(out.last() == st_tok(p.1));
        assert(pairwise_adj(out)) by {
            assert(forall|j: int|
                0 <= j < p.0.len() - 1 ==> adj_ok(#[trigger] p.0[j], p.0[j + 1]));
            if p.0.len() > 0 {
                assert(adj_ok(out[p.0.len() - 1], out[p.0.len() as int]));
            }
        }
    }
}

/// A well formed token's text is nonempty; a run's text begins and
/// ends with its character, and a number's with digits.
pub proof fn lemma_tok_text_chars(t: TokV)
    requires
        tok_wf(t),
    ensures
        tok_text(t).len() > 0,
        t matches TokV::RepeatSpecial(c, _) ==> tok_text(t)[0] == c && tok_text(t).last() == c,
        t matches TokV::Number(_, _) ==> is_digit(tok_text(t)[0]) && is_digit(tok_text(t).last()),
    decreases 0int,
{
    match t {
        TokV::RepeatSpecial(c, n) => {
            assert(crate::strutil::repeat_char(c, n).len() == n);
        },
        TokV::Str(s) => {},
        TokV::Number(p, f) => {
            lemma_decimal_digits(p);
            let dp = crate::strutil::decimal_of(p);
            match f {
                Option::None => {
                    assert(tok_text(t) == dp);
                },
                Some(x) => {
                    lemma_decimal_digits(x);
                    let dx = crate::strutil::decimal_of(x);
                    assert(tok_text(t) == dp + seq!['.'] + dx);
                    assert(tok_text(t)[0] == dp[0]);
                    assert(tok_text(t).last() == dx.last());
                },
            }
        },
    }
}

/// A character that begins the next token's text never extends the
/// pending state an acceptable previous token leaves behind.
proof fn lemma_no_extend(a: TokV, b: TokV)
    requires
        tok_wf(a),
        tok_wf(b),
        adj_ok(a, b),
    ensures
        !st_extends(pending_of(a), tok_text(b)[0]),
{
    lemma_tok_text_chars(a);
    lemma_tok_text_chars(b);
    let hd = tok_text(b)[0];
    match b {
        TokV::Str(s) => {
            assert(is_letter(hd));
        },
        TokV::RepeatSpecial(d, _) => {
            assert(hd == d);
        },
        TokV::Number(_, _) => {
            assert(is_digit(hd));
        },
    }
}

/// Retokenizing the concatenated texts of well formed, pairwise
/// acceptable tokens yields exactly those tokens: what one scan cut
/// apart, another scan cuts apart the same way.
pub proof fn lemma_retokenize(ts: Seq<TokV>)
    requires
        forall|j: int| 0 <= j < ts.len() ==> tok_wf(#[trigger] ts[j]),
        pairwise_adj(ts),
    ensures
        spec_tokenize(concat_texts(ts)) == ts,
    decreases ts.len(),
{
    reveal_with_fuel(lex_scan, 2);
    if ts.len() == 0 {
        assert(spec_tokenize(concat_texts(ts)) =~= ts);
    } else {
        let t0 = ts[0];
        let rest = ts.drop_first();
        let full = concat_texts(ts);
        assert(full == tok_text(t0) + concat_texts(rest));
        lemma_scan_tok(t0);
        lemma_scan_append(LexSt::Start, tok_text(t0), concat_texts(rest));
        if rest.len() == 0 {
            assert(concat_texts(rest) =~= Seq::<char>::empty());
            assert(lex_scan(LexSt::Start, full).0 =~= Seq::<TokV>::empty());
            assert(lex_scan(LexSt::Start, full).1 == pending_of(t0));
            assert(spec_tokenize(full) =~= seq![t0]);
            assert(seq![t0] =~= ts);
        } else {
            assert(forall|j: int| 0 <= j < rest.len() ==> rest[j] == #[trigger] ts[j + 1]);
            assert(forall|j: int| 0 <= j < rest.len() ==> tok_wf(#[trigger] rest[j]));
            assert(pairwise_adj(rest)) by {
                assert(forall|j: int|
                    0 <= j < rest.len() - 1 ==> adj_ok(#[trigger] rest[j], rest[j + 1]));
            }
            lemma_retokenize(rest);
            lemma_tok_text_chars(rest[0]);
            assert(concat_texts(rest) == tok_text(rest[0]) + concat_texts(rest.drop_first()));
            assert(concat_texts(rest).len() > 0);
            assert(concat_texts(rest)[0] == tok_text(rest[0])[0]);
            assert(adj_ok(t0, rest[0]));
            lemma_no_extend(t0, rest[0]);
            assert(!(pending_of(t0) is Start));
            lemma_scan_flush(pending_of(t0), concat_texts(rest));
            assert(lex_flush(pending_of(t0)) == seq![t0]);
            let inner = lex_scan(LexSt::Start, concat_texts(rest));
            assert(lex_scan(LexSt::Start, full).0 =~= seq![t0] + inner.0);
            assert(lex_scan(LexSt::Start, full).1 == inner.1);
            assert(spec_tokenize(full) =~= seq![t0] + spec_tokenize(concat_texts(rest)));
            assert(seq![t0] + rest =~= ts);
        }
    }
}

/// The last character of concatenated token texts is the last
/// character of the last token's text.
pub proof fn lemma_concat_last(ts: Seq<TokV>)
    requires
        ts.len() > 0,
        forall|j: int| 0 <= j < ts.len() ==> tok_wf(#[trigger] ts[j]),
    ensures
        concat_texts(ts).len() > 0,
        concat_texts(ts).last() == tok_text(ts.last()).last(),
    decreases ts.len(),
{
    lemma_tok_text_chars(ts[0]);
    if ts.len() == 1 {
        reveal_with_fuel(concat_texts, 3);
        assert(ts.drop_first() =~= Seq::<TokV>::empty());
        assert(concat_texts(ts) =~= tok_text(ts[0]));
    } else {
        let rest = ts.drop_first();
        assert(forall|j: int| 0 <= j < rest.len() ==> rest[j] == #[trigger] ts[j + 1]);
        lemma_concat_last(rest);
        assert(concat_texts(ts) == tok_text(ts[0]) + concat_texts(rest));
        assert(rest.last() == ts.last());
        assert(concat_texts(ts).last() == concat_texts(rest).last());
    }
}

/// A contiguous piece of the tokenizer's output retokenizes from its
/// own text to the same tokens.
pub proof fn lemma_subrange_retok(toks: Seq<TokV>, i: int, e: int)
    requires
        forall|j: int| 0 <= j < toks.len() ==> tok_wf(#[trigger] toks[j]),
        pairwise_adj(toks),
        0 <= i <= e <= toks.len(),
    ensures
        spec_tokenize(concat_texts(toks.subrange(i, e))) == toks.subrange(i, e),
        stable_text(concat_texts(toks.subrange(i, e))),
{
    let sub = toks.subrange(i, e);
    assert(forall|j: int| 0 <= j < sub.len() ==> sub[j] == #[trigger] toks[i + j]);
    assert(forall|j: int| 0 <= j < sub.len() ==> tok_wf(#[trigger] sub[j]));
    assert(pairwise_adj(sub)) by {
        assert(forall|j: int|
            0 <= j < sub.len() - 1 ==> adj_ok(#[trigger] sub[j], sub[j + 1]));
    }
    lemma_retokenize(sub);
}

/// The first and last characters of a nonempty contiguous piece of the
/// tokenizer's output, read off its first and last tokens.
pub proof fn lemma_subrange_edges(toks: Seq<TokV>, i: int, e: int)
    requires
        forall|j: int| 0 <= j < toks.len() ==> tok_wf(#[trigger] toks[j]),
        0 <= i < e <= toks.len(),
    ensures
        concat_texts(toks.subrange(i, e)).len() > 0,
        concat_texts(toks.subrange(i, e))[0] == tok_text(toks[i])[0],
        concat_texts(toks.subrange(i, e)).last() == tok_text(toks[e - 1]).last(),
{
    let sub = toks.subrange(i, e);
    assert(forall|j: int| 0 <= j < sub.len() ==> sub[j] == #[trigger] toks[i + j]);
    lemma_tok_text_chars(sub[0]);
    assert(concat_texts(sub) == tok_text(sub[0]) + concat_texts(sub.drop_first()));
    lemma_concat_last(sub);
    assert(sub.last() == toks[e - 1]);
}

/// The character a well formed token's text begins or ends with is a
/// letter for a text run, a digit for a number, and the run's own
/// character for a structural run; none of these is a bracket or a
/// parenthesis unless the run's character is.
pub proof fn lemma_edge_not(t: TokV, c: char)
    requires
        tok_wf(t),
        !is_letter(c),
        !is_digit(c),
        c != ' ',
        !(t matches TokV::RepeatSpecial(d, _) && d == c),
    ensures
        tok_text(t)[0] != c,
        tok_text(t).last() != c,
{
    lemma_tok_text_chars(t);
    match t {
        TokV::Str(s0) => {
            assert(text_like(s0));
            assert(is_letter(s0[0]));
            assert(is_letter(s0.last()) || is_digit(s0.last())
                || s0.last() == ' ');
        },
        _ => {},
    }
}


} // verus!
