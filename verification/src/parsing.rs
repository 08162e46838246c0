//! The anchor micro-grammar: recognizing and parsing directive lines.
//!
//! A directive is a substring of the form `##[` + operator + optional
//! argument + `]`, embedded anywhere in a line. `might_be_anchor` finds
//! the first such bracketed substring; `lex_tokens` and `parse_anchor`
//! then hold it to the formal grammar.

use vstd::prelude::*;

verus! {

/// A lexer operator keyword.
#[derive(Clone, Copy, Debug, PartialEq, Eq, Structural)]
pub enum Op {
    Insert,
    Before,
    After,
    Label,
}

/// A lexed token of the anchor micro-syntax.
#[derive(Debug)]
pub enum Token {
    AnchorStart,
    AnchorEnd,
    AnchorOp(Op),
    AnchorOpArg(String),
}

/// The mathematical value of a `Token`: the argument text is a sequence
/// of characters.
#[verifier::ext_equal]
pub enum TokenModel {
    Start,
    End,
    Op(Op),
    Arg(Seq<char>),
}

impl View for Token {
    type V = TokenModel;

    open spec fn view(&self) -> TokenModel {
        match self {
            Token::AnchorStart => TokenModel::Start,
            Token::AnchorEnd => TokenModel::End,
            Token::AnchorOp(op) => TokenModel::Op(*op),
            Token::AnchorOpArg(s) => TokenModel::Arg(s@),
        }
    }
}

impl PartialEq for Token {
    fn eq(&self, other: &Token) -> (r: bool) {
        match (self, other) {
            (Token::AnchorStart, Token::AnchorStart) => true,
            (Token::AnchorEnd, Token::AnchorEnd) => true,
            (Token::AnchorOp(a), Token::AnchorOp(b)) => *a == *b,
            (Token::AnchorOpArg(a), Token::AnchorOpArg(b)) => *a == *b,
            _ => false,
        }
    }
}

impl vstd::std_specs::cmp::PartialEqSpecImpl for Token {
    open spec fn obeys_eq_spec() -> bool {
        true
    }

    open spec fn eq_spec(&self, other: &Token) -> bool {
        self@ == other@
    }
}

/// Why a candidate anchor was rejected: it either failed to lex into
/// tokens at all, or the token stream did not match the grammar.
#[derive(Clone, Copy, Debug, PartialEq, Eq, Structural)]
pub enum ParseError {
    Lex,
    Parse,
}

/// A character allowed inside an anchor argument: a letter, a digit, an
/// underscore, a hyphen, a space or a tab.
pub open spec fn is_arg_char(c: char) -> bool {
    ((c as u32) >= 97 && (c as u32) <= 122)  // 'a' ..= 'z'
    || ((c as u32) >= 65 && (c as u32) <= 90)  // 'A' ..= 'Z'
    || ((c as u32) >= 48 && (c as u32) <= 57)  // '0' ..= '9'
    || c == '_' || c == '-' || c == ' ' || c == '\t'
}

/// The length of the run of argument characters starting at `i`.
pub open spec fn arg_run_len(s: Seq<char>, i: int) -> int
    decreases s.len() - i when 0 <= i <= s.len()
{
    if i < s.len() && is_arg_char(s[i]) {
        1 + arg_run_len(s, i + 1)
    } else {
        0
    }
}

/// The token found at the head of `s`, with the number of characters it
/// spans. At most one token pattern can match at any position (every
/// pattern begins with a distinct character), and the argument pattern
/// takes the longest run of argument characters.
pub open spec fn front_token(s: Seq<char>) -> Option<(TokenModel, int)> {
    if s.len() == 0 {
        None
    } else if s[0] == '#' {
        if s.len() >= 3 && s[1] == '#' && s[2] == '[' {
            Some((TokenModel::Start, 3))
        } else {
            None
        }
    } else if s[0] == ']' {
        Some((TokenModel::End, 1))
    } else if s[0] == 'b' {
        if s.len() >= 6 && s[1] == 'e' && s[2] == 'f' && s[3] == 'o' && s[4] == 'r' && s[5] == 'e' {
            Some((TokenModel::Op(Op::Before), 6))
        } else {
            None
        }
    } else if s[0] == 'a' {
        if s.len() >= 5 && s[1] == 'f' && s[2] == 't' && s[3] == 'e' && s[4] == 'r' {
            Some((TokenModel::Op(Op::After), 5))
        } else {
            None
        }
    } else if s[0] == 'i' {
        if s.len() >= 6 && s[1] == 'n' && s[2] == 's' && s[3] == 'e' && s[4] == 'r' && s[5] == 't' {
            Some((TokenModel::Op(Op::Insert), 6))
        } else {
            None
        }
    } else if s[0] == 'l' {
        if s.len() >= 5 && s[1] == 'a' && s[2] == 'b' && s[3] == 'e' && s[4] == 'l' {
            Some((TokenModel::Op(Op::Label), 5))
        } else {
            None
        }
    } else if s[0] == '(' {
        let n = arg_run_len(s, 1);
        if n >= 1 && 1 + n < s.len() && s[1 + n] == ')' {
            Some((TokenModel::Arg(s.subrange(0, n + 2)), n + 2))
        } else {
            None
        }
    } else {
        None
    }
}

/// The token sequence a piece of text lexes to, or `None` where some
/// position matches no token pattern.
pub open spec fn lex_spec(s: Seq<char>) -> Option<Seq<TokenModel>>
    decreases s.len()
{
    if s.len() == 0 {
        Some(Seq::empty())
    } else {
        match front_token(s) {
            None => None,
            Some((t, k)) => match lex_spec(s.skip(k)) {
                None => None,
                Some(rest) => Some(seq![t] + rest),
            },
        }
    }
}

/// The mathematical values of a sequence of tokens.
pub open spec fn token_views(ts: Seq<Token>) -> Seq<TokenModel> {
    ts.map_values(|t: Token| t@)
}

/// Prefix a token sequence onto a lexing outcome.
pub open spec fn lex_prepend(
    pre: Seq<TokenModel>,
    r: Option<Seq<TokenModel>>,
) -> Option<Seq<TokenModel>> {
    match r {
        None => None,
        Some(rest) => Some(pre + rest),
    }
}

/// A run of `m` argument characters at `i`, ended by the end of the text
/// or a non-argument character, is exactly what `arg_run_len` counts.
proof fn lemma_arg_run(s: Seq<char>, i: int, m: int)
    requires
        0 <= i,
        i + m <= s.len(),
        0 <= m,
        forall|k: int| i <= k < i + m ==> is_arg_char(s[k]),
        i + m == s.len() || !is_arg_char(s[i + m]),
    ensures
        arg_run_len(s, i) == m,
    decreases m,
{
    if m == 0 {
    } else {
        assert(is_arg_char(s[i]));
        lemma_arg_run(s, i + 1, m - 1);
    }
}

/// Decode each character of `text` into a vector.
fn line_chars(text: &str) -> (r: Vec<char>)
    ensures
        r@ == text@,
{
    let n = text.unicode_len();
    let mut r: Vec<char> = Vec::new();
    let mut i: usize = 0;
    while i < n
        invariant
            i <= n,
            n == text@.len(),
            r@ == text@.subrange(0, i as int),
        decreases n - i,
    {
        let c = text.get_char(i);
        r.push(c);
        i = i + 1;
        assert(r@ =~= text@.subrange(0, i as int));
    }
    assert(r@ =~= text@);
    r
}

/// An argument character, as `is_arg_char` describes it.
fn arg_char(c: char) -> (r: bool)
    ensures
        r == is_arg_char(c),
{
    ((c as u32) >= 97 && (c as u32) <= 122)
    || ((c as u32) >= 65 && (c as u32) <= 90)
    || ((c as u32) >= 48 && (c as u32) <= 57)
    || c == '_' || c == '-' || c == ' ' || c == '\t'
}

/// Split `text` into anchor tokens, longest match first at each
/// position. A position that matches no token pattern fails the whole
/// text.
pub fn lex_tokens(text: &str) -> (r: Result<Vec<Token>, ParseError>)
    ensures
        (r matches Ok(toks) ==> lex_spec(text@) == Some(token_views(toks@))),
        (r is Err ==> lex_spec(text@) is None && (r matches Err(e) && e == ParseError::Lex)),
{
    let chars = line_chars(text);
    let n = chars.len();
    let mut toks: Vec<Token> = Vec::new();
    let mut i: usize = 0;
    proof {
        assert(text@.skip(0) =~= text@);
        assert(token_views(toks@) =~= Seq::<TokenModel>::empty());
        match lex_spec(text@) {
            Some(rest) => {
                assert(Seq::<TokenModel>::empty() + rest =~= rest);
            },
            None => {},
        }
    }
    while i < n
        invariant
            i <= n,
            n == text@.len(),
            chars@ == text@,
            lex_spec(text@) == lex_prepend(token_views(toks@), lex_spec(text@.skip(i as int))),
        decreases n - i,
    {
        let ghost suf = text@.skip(i as int);
        let ghost pre = token_views(toks@);
        assert(forall|k: int| 0 <= k < suf.len() ==> suf[k] == text@[i + k]);
        let c = chars[i];
        let step: (Token, usize);
        if c == '#' {
            if n - i >= 3 && chars[i + 1] == '#' && chars[i + 2] == '[' {
                step = (Token::AnchorStart, 3);
            } else {
                assert(front_token(suf) is None);
                return Err(ParseError::Lex);
            }
        } else if c == ']' {
            step = (Token::AnchorEnd, 1);
        } else if c == 'b' {
            if n - i >= 6 && chars[i + 1] == 'e' && chars[i + 2] == 'f' && chars[i + 3] == 'o'
                && chars[i + 4] == 'r' && chars[i + 5] == 'e' {
                step = (Token::AnchorOp(Op::Before), 6);
            } else {
                assert(front_token(suf) is None);
                return Err(ParseError::Lex);
            }
        } else if c == 'a' {
            if n - i >= 5 && chars[i + 1] == 'f' && chars[i + 2] == 't' && chars[i + 3] == 'e'
                && chars[i + 4] == 'r' {
                step = (Token::AnchorOp(Op::After), 5);
            } else {
                assert(front_token(suf) is None);
                return Err(ParseError::Lex);
            }
        } else if c == 'i' {
            if n - i >= 6 && chars[i + 1] == 'n' && chars[i + 2] == 's' && chars[i + 3] == 'e'
                && chars[i + 4] == 'r' && chars[i + 5] == 't' {
                step = (Token::AnchorOp(Op::Insert), 6);
            } else {
                assert(front_token(suf) is None);
                return Err(ParseError::Lex);
            }
        } else if c == 'l' {
            if n - i >= 5 && chars[i + 1] == 'a' && chars[i + 2] == 'b' && chars[i + 3] == 'e'
                && chars[i + 4] == 'l' {
                step = (Token::AnchorOp(Op::Label), 5);
            } else {
                assert(front_token(suf) is None);
                return Err(ParseError::Lex);
            }
        } else if c == '(' {
            let mut j: usize = i + 1;
            while j < n && arg_char(chars[j])
                invariant
                    i + 1 <= j <= n,
                    n == text@.len(),
                    chars@ == text@,
                    forall|k: int| i + 1 <= k < j ==> is_arg_char(text@[k]),
                decreases n - j,
            {
                j = j + 1;
            }
            proof {
                lemma_arg_run(suf, 1, j - i - 1);
                assert(arg_run_len(suf, 1) == j - i - 1);
            }
            if j > i + 1 && j < n && chars[j] == ')' {
                let piece = text.substring_char(i, j + 1);
                let arg = piece.to_owned();
                assert(arg@ =~= suf.subrange(0, j + 1 - i));
                step = (Token::AnchorOpArg(arg), j + 1 - i);
            } else {
                assert(front_token(suf) is None);
                return Err(ParseError::Lex);
            }
        } else {
            assert(front_token(suf) is None);
            return Err(ParseError::Lex);
        }
        let (tok, k) = step;
        proof {
            assert(front_token(suf) == Some((tok@, k as int)));
        }
        toks.push(tok);
        i = i + k;
        proof {
            assert(suf.skip(k as int) =~= text@.skip(i as int));
            assert(token_views(toks@) =~= pre + seq![tok@]);
            assert(lex_spec(suf) == lex_prepend(seq![tok@], lex_spec(text@.skip(i as int))));
            assert(lex_spec(text@) == lex_prepend(token_views(toks@), lex_spec(text@.skip(i as int)))) by {
                match lex_spec(text@.skip(i as int)) {
                    Some(rest) => {
                        assert(pre + (seq![tok@] + rest) =~= (pre + seq![tok@]) + rest);
                    },
                    None => {},
                }
            }
        }
    }
    assert(text@.skip(i as int) =~= Seq::<char>::empty());
    assert(lex_spec(text@) == Some(token_views(toks@)));
    Ok(toks)
}

} // verus!

verus! {

/// A parsed anchor directive.
#[derive(Debug)]
pub enum Anchor {
    Insert,
    Before(String),
    After(String),
    Label(String),
}

/// The mathematical value of an `Anchor`: the label is a sequence of
/// characters.
#[verifier::ext_equal]
pub enum AnchorModel {
    Insert,
    Before(Seq<char>),
    After(Seq<char>),
    Label(Seq<char>),
}

impl View for Anchor {
    type V = AnchorModel;

    open spec fn view(&self) -> AnchorModel {
        match self {
            Anchor::Insert => AnchorModel::Insert,
            Anchor::Before(s) => AnchorModel::Before(s@),
            Anchor::After(s) => AnchorModel::After(s@),
            Anchor::Label(s) => AnchorModel::Label(s@),
        }
    }
}

impl PartialEq for Anchor {
    fn eq(&self, other: &Anchor) -> (r: bool) {
        match (self, other) {
            (Anchor::Insert, Anchor::Insert) => true,
            (Anchor::Before(a), Anchor::Before(b)) => *a == *b,
            (Anchor::After(a), Anchor::After(b)) => *a == *b,
            (Anchor::Label(a), Anchor::Label(b)) => *a == *b,
            _ => false,
        }
    }
}

impl vstd::std_specs::cmp::PartialEqSpecImpl for Anchor {
    open spec fn obeys_eq_spec() -> bool {
        true
    }

    open spec fn eq_spec(&self, other: &Anchor) -> bool {
        self@ == other@
    }
}

/// The directive a token stream parses to. The stream must match one of
/// the four directive shapes exactly; anything else is a parse failure.
pub open spec fn parse_spec(toks: Seq<TokenModel>) -> Option<AnchorModel> {
    if toks.len() == 3 {
        if toks[0] is Start && toks[1] == TokenModel::Op(Op::Insert) && toks[2] is End {
            Some(AnchorModel::Insert)
        } else {
            None
        }
    } else if toks.len() == 4 {
        if toks[0] is Start && toks[3] is End {
            match (toks[1], toks[2]) {
                (TokenModel::Op(Op::Before), TokenModel::Arg(a)) => Some(AnchorModel::Before(a)),
                (TokenModel::Op(Op::After), TokenModel::Arg(a)) => Some(AnchorModel::After(a)),
                (TokenModel::Op(Op::Label), TokenModel::Arg(a)) => Some(AnchorModel::Label(a)),
                _ => None,
            }
        } else {
            None
        }
    } else {
        None
    }
}

/// The outcome of lexing then parsing a piece of text.
pub open spec fn parse_text_spec(s: Seq<char>) -> Option<AnchorModel> {
    match lex_spec(s) {
        None => None,
        Some(toks) => parse_spec(toks),
    }
}

/// Read the argument token at position `at`, if that is what stands
/// there.
pub fn parse_arg(tokens: &Vec<Token>, at: usize) -> (r: Result<String, ParseError>)
    requires
        at < tokens@.len(),
    ensures
        (r matches Ok(s) ==> tokens@[at as int]@ == TokenModel::Arg(s@)),
        (r is Err ==> !(tokens@[at as int]@ is Arg)),
        (r is Err ==> (r matches Err(e) && e == ParseError::Parse)),
{
    match &tokens[at] {
        Token::AnchorOpArg(s) => Ok(s.clone()),
        _ => Err(ParseError::Parse),
    }
}

/// Check that the token at position `at` closes the anchor and that
/// nothing follows it.
pub fn parse_end(tokens: &Vec<Token>, at: usize) -> (r: Result<(), ParseError>)
    ensures
        (r is Ok <==> tokens@.len() == at + 1 && tokens@[at as int]@ is End),
        (r is Err ==> (r matches Err(e) && e == ParseError::Parse)),
{
    let n = tokens.len();
    if n == 0 || at != n - 1 {
        return Err(ParseError::Parse);
    }
    match &tokens[at] {
        Token::AnchorEnd => Ok(()),
        _ => Err(ParseError::Parse),
    }
}

/// Parse the operator at position 1 and whatever its shape demands
/// after it.
pub fn parse_op(tokens: &Vec<Token>) -> (r: Result<Anchor, ParseError>)
    requires
        tokens@.len() >= 1,
        tokens@[0]@ is Start,
    ensures
        (r matches Ok(a) ==> parse_spec(token_views(tokens@)) == Some(a@)),
        (r is Err ==> parse_spec(token_views(tokens@)) is None),
        (r is Err ==> (r matches Err(e) && e == ParseError::Parse)),
{
    if tokens.len() < 2 {
        return Err(ParseError::Parse);
    }
    let op = match &tokens[1] {
        Token::AnchorOp(op) => *op,
        _ => {
            return Err(ParseError::Parse);
        },
    };
    match op {
        Op::Insert => {
            match parse_end(tokens, 2) {
                Ok(()) => Ok(Anchor::Insert),
                Err(e) => Err(e),
            }
        },
        Op::Before => {
            if tokens.len() < 3 {
                return Err(ParseError::Parse);
            }
            let arg = match parse_arg(tokens, 2) {
                Ok(arg) => arg,
                Err(e) => {
                    return Err(e);
                },
            };
            match parse_end(tokens, 3) {
                Ok(()) => Ok(Anchor::Before(arg)),
                Err(e) => Err(e),
            }
        },
        Op::After => {
            if tokens.len() < 3 {
                return Err(ParseError::Parse);
            }
            let arg = match parse_arg(tokens, 2) {
                Ok(arg) => arg,
                Err(e) => {
                    return Err(e);
                },
            };
            match parse_end(tokens, 3) {
                Ok(()) => Ok(Anchor::After(arg)),
                Err(e) => Err(e),
            }
        },
        Op::Label => {
            if tokens.len() < 3 {
                return Err(ParseError::Parse);
            }
            let arg = match parse_arg(tokens, 2) {
                Ok(arg) => arg,
                Err(e) => {
                    return Err(e);
                },
            };
            match parse_end(tokens, 3) {
                Ok(()) => Ok(Anchor::Label(arg)),
                Err(e) => Err(e),
            }
        },
    }
}

/// Parse a lexed token stream as one whole anchor directive.
pub fn parse_anchor(tokens: Vec<Token>) -> (r: Result<Anchor, ParseError>)
    ensures
        (r matches Ok(a) ==> parse_spec(token_views(tokens@)) == Some(a@)),
        (r is Err ==> parse_spec(token_views(tokens@)) is None),
        (r is Err ==> (r matches Err(e) && e == ParseError::Parse)),
{
    if tokens.len() == 0 {
        return Err(ParseError::Parse);
    }
    match &tokens[0] {
        Token::AnchorStart => parse_op(&tokens),
        _ => Err(ParseError::Parse),
    }
}

/// Attempt to parse the given text as an anchor directive: lex it, then
/// hold the token stream to the grammar.
pub fn parse(text: &str) -> (r: Result<Anchor, ParseError>)
    ensures
        (r matches Ok(a) ==> parse_text_spec(text@) == Some(a@)),
        (r is Err ==> parse_text_spec(text@) is None),
        (r == Err::<Anchor, ParseError>(ParseError::Lex) <==> lex_spec(text@) is None),
{
    let toks = match lex_tokens(text) {
        Ok(toks) => toks,
        Err(e) => {
            return Err(e);
        },
    };
    parse_anchor(toks)
}

} // verus!

verus! {

/// `##[` opens at position `i`.
pub open spec fn hash_open_at(s: Seq<char>, i: int) -> bool {
    0 <= i && i + 3 <= s.len() && s[i] == '#' && s[i + 1] == '#' && s[i + 2] == '['
}

/// A candidate anchor starts at `i`: `##[`, then at least one
/// character that is not `]`, then somewhere a closing `]`.
pub open spec fn candidate_at(s: Seq<char>, i: int) -> bool {
    hash_open_at(s, i) && i + 3 < s.len() && s[i + 3] != ']'
        && exists|j: int| i + 3 < j < s.len() && s[j] == ']'
}

/// Some candidate anchor occurs in the line.
pub open spec fn has_candidate(s: Seq<char>) -> bool {
    exists|i: int| candidate_at(s, i)
}

/// `i` is the leftmost candidate start.
pub open spec fn is_first_candidate(s: Seq<char>, i: int) -> bool {
    candidate_at(s, i) && (forall|i2: int| 0 <= i2 < i ==> !candidate_at(s, i2))
}

/// `j` is the first `]` after the opening at `i`.
pub open spec fn close_of(s: Seq<char>, i: int, j: int) -> bool {
    i + 3 < j < s.len() && s[j] == ']' && (forall|k: int| i + 3 <= k < j ==> s[k] != ']')
}

/// The matched text of the first candidate anchor: from its `##[`
/// through the first `]` after the opening. Meaningful only where
/// `has_candidate` holds.
pub open spec fn match_text(s: Seq<char>) -> Seq<char> {
    let i = choose|i: int| is_first_candidate(s, i);
    let j = choose|j: int| close_of(s, i, j);
    s.subrange(i, j + 1)
}

/// Check if the line might contain an anchor. Returns the matched
/// substring, so that it can then be formally checked with a parser.
pub fn might_be_anchor(line: &str) -> (r: Option<String>)
    ensures
        (r is Some <==> has_candidate(line@)),
        (r matches Some(m) ==> m@ == match_text(line@)),
{
    let chars = line_chars(line);
    let n = chars.len();
    let mut i: usize = 0;
    while i < n
        invariant
            i <= n,
            n == line@.len(),
            chars@ == line@,
            forall|i2: int| 0 <= i2 < i ==> !candidate_at(line@, i2),
        decreases n - i,
    {
        if n - i >= 5 && chars[i] == '#' && chars[i + 1] == '#' && chars[i + 2] == '['
            && chars[i + 3] != ']' {
            let mut j: usize = i + 4;
            while j < n && chars[j] != ']'
                invariant
                    i + 4 <= j <= n,
                    n == line@.len(),
                    chars@ == line@,
                    forall|k: int| i + 4 <= k < j ==> line@[k] != ']',
                decreases n - j,
            {
                j = j + 1;
            }
            if j < n {
                proof {
                    assert(line@[j as int] == ']');
                    assert(candidate_at(line@, i as int));
                    assert(is_first_candidate(line@, i as int));
                    assert(close_of(line@, i as int, j as int));
                    let ci = choose|ci: int| is_first_candidate(line@, ci);
                    assert(is_first_candidate(line@, ci));
                    assert(ci == i as int) by {
                        if ci < i as int {
                            assert(!candidate_at(line@, ci));
                        } else if ci > i as int {
                            assert(!candidate_at(line@, i as int));
                        }
                    }
                    let cj = choose|cj: int| close_of(line@, ci, cj);
                    assert(close_of(line@, ci, cj));
                    assert(cj == j as int) by {
                        if cj < j as int {
                            assert(line@[cj] != ']');
                        } else if cj > j as int {
                            assert(line@[j as int] != ']');
                        }
                    }
                }
                let m = line.substring_char(i, j + 1);
                assert(m@ == match_text(line@));
                return Some(m.to_owned());
            } else {
                proof {
                    assert forall|i2: int| 0 <= i2 implies !candidate_at(line@, i2) by {
                        if 0 <= i2 && candidate_at(line@, i2) {
                            if i2 < i as int {
                                assert(!candidate_at(line@, i2));
                            } else {
                                let jw = choose|jw: int| i2 + 3 < jw < line@.len() && line@[jw] == ']';
                                assert(i + 4 <= jw < n);
                                assert(line@[jw] != ']');
                            }
                        }
                    }
                }
                return None;
            }
        } else {
            assert(!candidate_at(line@, i as int));
            i = i + 1;
        }
    }
    assert(!has_candidate(line@)) by {
        assert(forall|i2: int| 0 <= i2 < n ==> !candidate_at(line@, i2));
        assert forall|i2: int| candidate_at(line@, i2) implies false by {
            assert(0 <= i2 < n);
        }
    }
    None
}

} // verus!

verus! {

/// Every argument token a text lexes to spans at least three
/// characters: its parentheses and a non-empty run between them.
proof fn lemma_lex_args_nonempty(s: Seq<char>, k: int)
    requires
        lex_spec(s) is Some,
        0 <= k < lex_spec(s)->0.len(),
        lex_spec(s)->0[k] is Arg,
    ensures
        lex_spec(s)->0[k]->Arg_0.len() >= 3,
    decreases s.len(),
{
    let toks = lex_spec(s)->0;
    if s.len() > 0 {
        let ft = front_token(s)->0;
        let rest = lex_spec(s.skip(ft.1))->0;
        assert(toks == seq![ft.0] + rest);
        if k == 0 {
            if ft.0 is Arg {
                assert(arg_run_len(s, 1) >= 1);
            }
        } else {
            assert(rest[k - 1] == toks[k]);
            lemma_lex_args_nonempty(s.skip(ft.1), k - 1);
        }
    }
}

/// A label is never empty: any directive a text parses to carries a
/// label of at least three characters, the parenthesized argument with
/// its non-empty inside.
pub proof fn lemma_label_never_empty(s: Seq<char>)
    requires
        parse_text_spec(s) is Some,
    ensures
        (match parse_text_spec(s)->0 {
            AnchorModel::Insert => true,
            AnchorModel::Before(l) => l.len() >= 3,
            AnchorModel::After(l) => l.len() >= 3,
            AnchorModel::Label(l) => l.len() >= 3,
        }),
{
    let toks = lex_spec(s)->0;
    match parse_text_spec(s)->0 {
        AnchorModel::Insert => {},
        AnchorModel::Before(_) => {
            lemma_lex_args_nonempty(s, 2);
        },
        AnchorModel::After(_) => {
            lemma_lex_args_nonempty(s, 2);
        },
        AnchorModel::Label(_) => {
            lemma_lex_args_nonempty(s, 2);
        },
    }
}

} // verus!
