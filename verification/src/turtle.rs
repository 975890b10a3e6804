//! The line grammar: classifies one line of input into a fragment variant.
//! Tokenization and classification are specified over character sequences and
//! the executable parser is proved to return exactly what the specification
//! says, for every input line.

use crate::data::Pre;
use crate::data::RdfName;
use crate::data::TriplesError;
use crate::data::str_to_string;
use crate::turtle_stream::ParsedLine;
use crate::turtle_stream::ParsedLineV;
use crate::turtle_stream::opt_pre_view;
use vstd::prelude::*;

verus! {

/// Whitespace tolerated between tokens: spaces, tabs, and line ends.
pub open spec fn is_ws(c: char) -> bool {
    c == ' ' || c == '\t' || c == '\r' || c == '\n'
}

/// Characters allowed inside a plain name: letters, digits, `_` and `-`.
pub open spec fn is_name_char(c: char) -> bool {
    ('a' <= c && c <= 'z') || ('A' <= c && c <= 'Z') || ('0' <= c && c <= '9') || c == '_' || c
        == '-'
}

/// Whether a name contains a hyphen; a mnemonic or predicate name may not.
pub open spec fn has_dash(s: Seq<char>) -> bool {
    exists|i: int| 0 <= i < s.len() && s[i] == '-'
}

/// One lexical token, at the spec level.
pub enum TokV {
    /// The keyword `@prefix`.
    AtPrefix,
    /// A bare name.
    Name(Seq<char>),
    /// `mnemonic:local`, with no space around the colon.
    PrefixedName(Seq<char>, Seq<char>),
    /// `mnemonic:` with no local name attached.
    NameColon(Seq<char>),
    /// `<identifier>`, brackets stripped.
    Uri(Seq<char>),
    /// `"text"`, quotes stripped, escape sequences kept verbatim.
    Literal(Seq<char>),
    Semi,
    Comma,
    Dot,
}

/// One lexical token, executable form.
#[derive(Debug, Clone, PartialEq)]
pub enum Token {
    AtPrefix,
    Name(String),
    PrefixedName(String, String),
    NameColon(String),
    Uri(String),
    Literal(String),
    Semi,
    Comma,
    Dot,
}

impl View for Token {
    type V = TokV;

    open spec fn view(&self) -> TokV {
        match self {
            Token::AtPrefix => TokV::AtPrefix,
            Token::Name(s) => TokV::Name(s@),
            Token::PrefixedName(p, l) => TokV::PrefixedName(p@, l@),
            Token::NameColon(p) => TokV::NameColon(p@),
            Token::Uri(u) => TokV::Uri(u@),
            Token::Literal(x) => TokV::Literal(x@),
            Token::Semi => TokV::Semi,
            Token::Comma => TokV::Comma,
            Token::Dot => TokV::Dot,
        }
    }
}

/// First position at or after `i` holding a non-whitespace character.
pub open spec fn skip_ws_from(s: Seq<char>, i: int) -> int
    decreases s.len() - i,
{
    if 0 <= i < s.len() && is_ws(s[i]) {
        skip_ws_from(s, i + 1)
    } else {
        i
    }
}

/// End of the name run starting at `i`.
pub open spec fn name_end(s: Seq<char>, i: int) -> int
    decreases s.len() - i,
{
    if 0 <= i < s.len() && is_name_char(s[i]) {
        name_end(s, i + 1)
    } else {
        i
    }
}

/// Position of the first `>` at or after `i`, if any.
pub open spec fn close_angle(s: Seq<char>, i: int) -> Option<int>
    decreases s.len() - i,
{
    if 0 <= i < s.len() {
        if s[i] == '>' {
            Some(i)
        } else {
            close_angle(s, i + 1)
        }
    } else {
        None
    }
}

/// Position of the closing quote at or after `i`, skipping over backslash
/// escape pairs, if any.
pub open spec fn close_quote(s: Seq<char>, i: int) -> Option<int>
    decreases s.len() - i,
{
    if 0 <= i < s.len() {
        if s[i] == '"' {
            Some(i)
        } else if s[i] == '\\' {
            if i + 1 < s.len() {
                close_quote(s, i + 2)
            } else {
                None
            }
        } else {
            close_quote(s, i + 1)
        }
    } else {
        None
    }
}

/// The characters of the keyword `@prefix`.
pub open spec fn at_prefix_word() -> Seq<char> {
    seq!['@', 'p', 'r', 'e', 'f', 'i', 'x']
}

/// The token starting exactly at position `i`, with the position after it.
pub open spec fn tok_at(s: Seq<char>, i: int) -> Option<(TokV, int)> {
    if !(0 <= i < s.len()) {
        None
    } else if s[i] == '@' {
        if i + 7 <= s.len() && s.subrange(i, i + 7) == at_prefix_word() {
            Some((TokV::AtPrefix, i + 7))
        } else {
            None
        }
    } else if s[i] == '<' {
        match close_angle(s, i + 1) {
            Some(j) => if j > i + 1 {
                Some((TokV::Uri(s.subrange(i + 1, j)), j + 1))
            } else {
                None
            },
            None => None,
        }
    } else if s[i] == '"' {
        match close_quote(s, i + 1) {
            Some(j) => Some((TokV::Literal(s.subrange(i + 1, j)), j + 1)),
            None => None,
        }
    } else if s[i] == ';' {
        Some((TokV::Semi, i + 1))
    } else if s[i] == ',' {
        Some((TokV::Comma, i + 1))
    } else if s[i] == '.' {
        Some((TokV::Dot, i + 1))
    } else if is_name_char(s[i]) {
        let j = name_end(s, i);
        let name = s.subrange(i, j);
        if j < s.len() && s[j] == ':' && !has_dash(name) {
            if j + 1 < s.len() && is_name_char(s[j + 1]) {
                let k = name_end(s, j + 1);
                Some((TokV::PrefixedName(name, s.subrange(j + 1, k)), k))
            } else {
                Some((TokV::NameColon(name), j + 1))
            }
        } else {
            Some((TokV::Name(name), j))
        }
    } else {
        None
    }
}

/// The token sequence of the tail of the line starting at `i`, or nothing
/// when some part of it is not a token.
pub open spec fn toks_from(s: Seq<char>, i: int) -> Option<Seq<TokV>>
    decreases s.len() - i,
{
    if !(0 <= i <= s.len()) {
        None
    } else {
        let j = skip_ws_from(s, i);
        if j >= s.len() {
            Some(Seq::<TokV>::empty())
        } else {
            match tok_at(s, j) {
                None => None,
                Some((t, nx)) => if i < nx <= s.len() {
                    match toks_from(s, nx) {
                        None => None,
                        Some(rest) => Some(seq![t] + rest),
                    }
                } else {
                    None
                },
            }
        }
    }
}

/// The token sequence of a whole line.
pub open spec fn spec_tokenize(s: Seq<char>) -> Option<Seq<TokV>> {
    toks_from(s, 0)
}

/// `skip_ws_from` lands exactly on the first non-whitespace position.
pub proof fn lemma_skip_ws_exact(s: Seq<char>, i: int, j: int)
    requires
        0 <= i <= j <= s.len(),
        forall|a: int| i <= a < j ==> is_ws(#[trigger] s[a]),
        j < s.len() ==> !is_ws(s[j]),
    ensures
        skip_ws_from(s, i) == j,
    decreases j - i,
{
    if i < j {
        lemma_skip_ws_exact(s, i + 1, j);
    }
}

/// `name_end` lands exactly where the run of name characters ends.
pub proof fn lemma_name_end_exact(s: Seq<char>, i: int, j: int)
    requires
        0 <= i <= j <= s.len(),
        forall|a: int| i <= a < j ==> is_name_char(#[trigger] s[a]),
        j < s.len() ==> !is_name_char(s[j]),
    ensures
        name_end(s, i) == j,
    decreases j - i,
{
    if i < j {
        lemma_name_end_exact(s, i + 1, j);
    }
}

/// `close_angle` finds exactly the first closing bracket.
pub proof fn lemma_close_angle_exact(s: Seq<char>, i: int, j: int)
    requires
        0 <= i <= j < s.len(),
        forall|a: int| i <= a < j ==> (#[trigger] s[a]) != '>',
        s[j] == '>',
    ensures
        close_angle(s, i) == Some(j),
    decreases j - i,
{
    if i < j {
        lemma_close_angle_exact(s, i + 1, j);
    }
}

/// Over a stretch with no quote and no backslash, `close_quote` finds
/// exactly the first quote.
pub proof fn lemma_close_quote_exact(s: Seq<char>, i: int, j: int)
    requires
        0 <= i <= j < s.len(),
        forall|a: int| i <= a < j ==> (#[trigger] s[a]) != '"' && s[a] != '\\',
        s[j] == '"',
    ensures
        close_quote(s, i) == Some(j),
    decreases j - i,
{
    if i < j {
        lemma_close_quote_exact(s, i + 1, j);
    }
}

/// A quote scan embeds: where a stretch of `line` equals `t` from position
/// `p` on, a scan of `t` that closes inside it closes at the same offset in
/// `line`.
pub proof fn lemma_close_quote_shift(line: Seq<char>, a: int, t: Seq<char>, p: int)
    requires
        0 <= a,
        0 <= p <= t.len(),
        a + t.len() <= line.len(),
        forall|x: int| p <= x < t.len() ==> line[a + x] == #[trigger] t[x],
        close_quote(t, p) is Some,
    ensures
        close_quote(line, a + p) == Some(a + close_quote(t, p)->Some_0),
    decreases t.len() - p,
{
    lemma_close_quote(t, p);
    let j = close_quote(t, p)->Some_0;
    if t[p] == '"' {
    } else if t[p] == '\\' {
        lemma_close_quote_shift(line, a, t, p + 2);
    } else {
        lemma_close_quote_shift(line, a, t, p + 1);
    }
}

proof fn lemma_skip_ws(s: Seq<char>, i: int)
    requires
        0 <= i <= s.len(),
    ensures
        i <= skip_ws_from(s, i) <= s.len(),
        skip_ws_from(s, i) < s.len() ==> !is_ws(s[skip_ws_from(s, i)]),
    decreases s.len() - i,
{
    if i < s.len() && is_ws(s[i]) {
        lemma_skip_ws(s, i + 1);
    }
}

proof fn lemma_name_end(s: Seq<char>, i: int)
    requires
        0 <= i <= s.len(),
    ensures
        i <= name_end(s, i) <= s.len(),
        forall|a: int| i <= a < name_end(s, i) ==> is_name_char(s[a]),
        name_end(s, i) < s.len() ==> !is_name_char(s[name_end(s, i)]),
    decreases s.len() - i,
{
    if i < s.len() && is_name_char(s[i]) {
        lemma_name_end(s, i + 1);
    }
}

proof fn lemma_close_angle(s: Seq<char>, i: int)
    requires
        0 <= i <= s.len(),
    ensures
        match close_angle(s, i) {
            Some(j) => i <= j < s.len() && s[j] == '>',
            None => true,
        },
    decreases s.len() - i,
{
    if i < s.len() && s[i] != '>' {
        lemma_close_angle(s, i + 1);
    }
}

proof fn lemma_close_quote(s: Seq<char>, i: int)
    requires
        0 <= i <= s.len(),
    ensures
        match close_quote(s, i) {
            Some(j) => i <= j < s.len() && s[j] == '"',
            None => true,
        },
    decreases s.len() - i,
{
    if i < s.len() {
        if s[i] == '"' {
        } else if s[i] == '\\' {
            if i + 1 < s.len() {
                lemma_close_quote(s, i + 2);
            }
        } else {
            lemma_close_quote(s, i + 1);
        }
    }
}

/// Every token ends after the position it starts at and within the line.
proof fn lemma_tok_at_bounds(s: Seq<char>, i: int)
    requires
        0 <= i,
    ensures
        match tok_at(s, i) {
            Some((t, nx)) => i < nx <= s.len(),
            None => true,
        },
{
    if 0 <= i < s.len() {
        if s[i] == '<' {
            lemma_close_angle(s, i + 1);
        } else if s[i] == '"' {
            lemma_close_quote(s, i + 1);
        } else if s[i] == ';' || s[i] == ',' || s[i] == '.' || s[i] == '@' {
        } else if is_name_char(s[i]) {
            lemma_name_end(s, i);
            if name_end(s, i) < s.len() && s[name_end(s, i)] == ':' && !has_dash(
                s.subrange(i, name_end(s, i)),
            ) {
                if name_end(s, i) + 1 < s.len() && is_name_char(s[name_end(s, i) + 1]) {
                    lemma_name_end(s, name_end(s, i) + 1);
                }
            }
            assert(name_end(s, i) > i);
        }
    }
}

fn skip_ws_exec(s: &str, from: usize) -> (r: usize)
    requires
        from <= s@.len(),
    ensures
        r == skip_ws_from(s@, from as int),
        from <= r <= s@.len(),
{
    let n = s.unicode_len();
    let mut i = from;
    while i < n
        invariant
            from <= i <= n,
            n == s@.len(),
            skip_ws_from(s@, from as int) == skip_ws_from(s@, i as int),
        decreases n - i,
    {
        let c = s.get_char(i);
        if c == ' ' || c == '\t' || c == '\r' || c == '\n' {
            i = i + 1;
        } else {
            return i;
        }
    }
    i
}

fn name_end_exec(s: &str, from: usize) -> (r: usize)
    requires
        from <= s@.len(),
    ensures
        r == name_end(s@, from as int),
        from <= r <= s@.len(),
{
    let n = s.unicode_len();
    let mut i = from;
    while i < n
        invariant
            from <= i <= n,
            n == s@.len(),
            name_end(s@, from as int) == name_end(s@, i as int),
        decreases n - i,
    {
        let c = s.get_char(i);
        if ('a' <= c && c <= 'z') || ('A' <= c && c <= 'Z') || ('0' <= c && c <= '9') || c == '_'
            || c == '-' {
            i = i + 1;
        } else {
            return i;
        }
    }
    i
}

fn close_angle_exec(s: &str, from: usize) -> (r: Option<usize>)
    requires
        from <= s@.len(),
    ensures
        match r {
            Some(j) => close_angle(s@, from as int) == Some(j as int) && from <= j < s@.len(),
            None => close_angle(s@, from as int) is None,
        },
{
    let n = s.unicode_len();
    let mut i = from;
    while i < n
        invariant
            from <= i <= n,
            n == s@.len(),
            close_angle(s@, from as int) == close_angle(s@, i as int),
        decreases n - i,
    {
        if s.get_char(i) == '>' {
            return Some(i);
        }
        i = i + 1;
    }
    None
}

fn close_quote_exec(s: &str, from: usize) -> (r: Option<usize>)
    requires
        from <= s@.len(),
    ensures
        match r {
            Some(j) => close_quote(s@, from as int) == Some(j as int) && from <= j < s@.len(),
            None => close_quote(s@, from as int) is None,
        },
{
    let n = s.unicode_len();
    let mut i = from;
    while i < n
        invariant
            from <= i <= n,
            n == s@.len(),
            close_quote(s@, from as int) == close_quote(s@, i as int),
        decreases n - i,
    {
        let c = s.get_char(i);
        if c == '"' {
            return Some(i);
        } else if c == '\\' {
            if i + 1 < n {
                i = i + 2;
            } else {
                return None;
            }
        } else {
            i = i + 1;
        }
    }
    None
}

/// Whether `pat` occurs in `s` starting exactly at `from`.
fn matches_at(s: &str, from: usize, pat: &str) -> (r: bool)
    requires
        from <= s@.len(),
    ensures
        r == (from + pat@.len() <= s@.len() && s@.subrange(
            from as int,
            from as int + pat@.len(),
        ) == pat@),
{
    let n = s.unicode_len();
    let m = pat.unicode_len();
    if m > n - from {
        proof {
            assert(from + pat@.len() > s@.len());
        }
        return false;
    }
    let mut j: usize = 0;
    while j < m
        invariant
            0 <= j <= m,
            m == pat@.len(),
            n == s@.len(),
            from + m <= n,
            forall|a: int| 0 <= a < j ==> s@[from + a] == pat@[a],
        decreases m - j,
    {
        if s.get_char(from + j) != pat.get_char(j) {
            proof {
                assert(s@.subrange(from as int, from as int + pat@.len())[j as int] != pat@[
                    j as int
                ]);
            }
            return false;
        }
        j = j + 1;
    }
    proof {
        assert(s@.subrange(from as int, from as int + pat@.len()) =~= pat@);
    }
    true
}

/// Whether the string holds a hyphen.
fn find_dash(s: &str) -> (r: bool)
    ensures
        r == has_dash(s@),
{
    let n = s.unicode_len();
    let mut i: usize = 0;
    while i < n
        invariant
            0 <= i <= n,
            n == s@.len(),
            forall|a: int| 0 <= a < i ==> s@[a] != '-',
        decreases n - i,
    {
        if s.get_char(i) == '-' {
            return true;
        }
        i = i + 1;
    }
    false
}

/// Read the token starting exactly at `from`.
fn next_token(s: &str, from: usize) -> (r: Option<(Token, usize)>)
    requires
        from <= s@.len(),
    ensures
        match r {
            Some(pair) => tok_at(s@, from as int) == Some((pair.0@, pair.1 as int)) && from
                < pair.1 <= s@.len(),
            None => tok_at(s@, from as int) is None,
        },
{
    let n = s.unicode_len();
    if from >= n {
        return None;
    }
    let c = s.get_char(from);
    if c == '@' {
        if matches_at(s, from, "@prefix") {
            proof {
                reveal_strlit("@prefix");
                assert("@prefix"@ =~= at_prefix_word());
                assert(s@.subrange(from as int, from as int + 7) == at_prefix_word());
            }
            Some((Token::AtPrefix, from + 7))
        } else {
            proof {
                reveal_strlit("@prefix");
                assert("@prefix"@ =~= at_prefix_word());
            }
            None
        }
    } else if c == '<' {
        match close_angle_exec(s, from + 1) {
            Some(j) => {
                if j > from + 1 {
                    let text = str_to_string(s.substring_char(from + 1, j));
                    Some((Token::Uri(text), j + 1))
                } else {
                    None
                }
            },
            None => None,
        }
    } else if c == '"' {
        match close_quote_exec(s, from + 1) {
            Some(j) => {
                let text = str_to_string(s.substring_char(from + 1, j));
                Some((Token::Literal(text), j + 1))
            },
            None => None,
        }
    } else if c == ';' {
        Some((Token::Semi, from + 1))
    } else if c == ',' {
        Some((Token::Comma, from + 1))
    } else if c == '.' {
        Some((Token::Dot, from + 1))
    } else if ('a' <= c && c <= 'z') || ('A' <= c && c <= 'Z') || ('0' <= c && c <= '9') || c
        == '_' || c == '-' {
        proof {
            lemma_name_end(s@, from as int);
        }
        let j = name_end_exec(s, from);
        let name = str_to_string(s.substring_char(from, j));
        if j < n && s.get_char(j) == ':' && !find_dash(name.as_str()) {
            if j + 1 < n {
                let c2 = s.get_char(j + 1);
                if ('a' <= c2 && c2 <= 'z') || ('A' <= c2 && c2 <= 'Z') || ('0' <= c2 && c2 <= '9')
                    || c2 == '_' || c2 == '-' {
                    proof {
                        lemma_name_end(s@, j as int + 1);
                    }
                    let k = name_end_exec(s, j + 1);
                    let local = str_to_string(s.substring_char(j + 1, k));
                    Some((Token::PrefixedName(name, local), k))
                } else {
                    Some((Token::NameColon(name), j + 1))
                }
            } else {
                Some((Token::NameColon(name), j + 1))
            }
        } else {
            Some((Token::Name(name), j))
        }
    } else {
        None
    }
}

/// Split a whole line into tokens; nothing when some part of the line is not
/// a token.
pub fn tokenize(line: &str) -> (r: Option<Vec<Token>>)
    ensures
        match r {
            Some(toks) => spec_tokenize(line@) == Some(toks@.map_values(|t: Token| t@)),
            None => spec_tokenize(line@) is None,
        },
{
    let n = line.unicode_len();
    let mut toks: Vec<Token> = Vec::new();
    let mut i: usize = 0;
    proof {
        assert(Seq::<TokV>::empty() =~= toks@.map_values(|t: Token| t@));
    }
    loop
        invariant
            i <= n,
            n == line@.len(),
            spec_tokenize(line@) == (match toks_from(line@, i as int) {
                None => None::<Seq<TokV>>,
                Some(rest) => Some(toks@.map_values(|t: Token| t@) + rest),
            }),
        decreases n - i,
    {
        let ghost prev_toks = toks@;
        let ghost ii = i as int;
        let j = skip_ws_exec(line, i);
        proof {
            lemma_skip_ws(line@, ii);
        }
        if j >= n {
            proof {
                assert(toks_from(line@, ii) == Some(Seq::<TokV>::empty()));
                assert(toks@.map_values(|t: Token| t@) + Seq::<TokV>::empty() =~= toks@.map_values(
                    |t: Token| t@,
                ));
            }
            return Some(toks);
        }
        match next_token(line, j) {
            None => {
                proof {
                    assert(toks_from(line@, ii) is None);
                }
                return None;
            },
            Some((t, nx)) => {
                proof {
                    lemma_tok_at_bounds(line@, j as int);
                    assert(toks_from(line@, ii) == (match toks_from(line@, nx as int) {
                        None => None::<Seq<TokV>>,
                        Some(rest) => Some(seq![t@] + rest),
                    }));
                }
                toks.push(t);
                proof {
                    assert(toks@.map_values(|t: Token| t@) =~= prev_toks.map_values(
                        |t: Token| t@,
                    ) + seq![toks@[toks@.len() - 1]@]);
                    match toks_from(line@, nx as int) {
                        None => {},
                        Some(rest) => {
                            assert(prev_toks.map_values(|t: Token| t@) + (seq![
                                toks@[toks@.len() - 1]@,
                            ] + rest) =~= toks@.map_values(|t: Token| t@) + rest);
                        },
                    }
                }
                i = nx;
            },
        }
    }
}


/// How a predicate/object line ends: `;` continues with the next predicate,
/// `,` announces more objects, `.` (also after `;` or `,`) closes the block.
pub enum TermV {
    Next,
    More,
    End,
}

/// Executable form of a line terminator.
#[derive(Debug, Clone, PartialEq)]
pub enum TermK {
    Next,
    More,
    End,
}

impl View for TermK {
    type V = TermV;

    open spec fn view(&self) -> TermV {
        match self {
            TermK::Next => TermV::Next,
            TermK::More => TermV::More,
            TermK::End => TermV::End,
        }
    }
}

/// Classify the trailing terminator tokens of a line.
pub open spec fn term_of(ts: Seq<TokV>) -> Option<TermV> {
    if ts.len() == 1 {
        match ts[0] {
            TokV::Semi => Some(TermV::Next),
            TokV::Comma => Some(TermV::More),
            TokV::Dot => Some(TermV::End),
            _ => None,
        }
    } else if ts.len() == 2 {
        match (ts[0], ts[1]) {
            (TokV::Semi, TokV::Dot) => Some(TermV::End),
            (TokV::Comma, TokV::Dot) => Some(TermV::End),
            _ => None,
        }
    } else {
        None
    }
}

/// A token usable in subject position: a bare name, a prefixed name, or a
/// bracketed identifier.
pub open spec fn subj_of(t: TokV) -> Option<(Option<Seq<char>>, Seq<char>)> {
    match t {
        TokV::Name(n) => Some((None, n)),
        TokV::PrefixedName(p, l) => Some((Some(p), l)),
        TokV::Uri(u) => Some((None, u)),
        _ => None,
    }
}

/// A token usable in predicate position.  The keyword `a` stands for the
/// type-assertion predicate `rdf:type`; a hyphen is not allowed in a
/// predicate name.
pub open spec fn pred_of(t: TokV) -> Option<(Option<Seq<char>>, Seq<char>)> {
    match t {
        TokV::Name(n) => if n == seq!['a'] {
            Some((Some(seq!['r', 'd', 'f']), seq!['t', 'y', 'p', 'e']))
        } else if !has_dash(n) {
            Some((None, n))
        } else {
            None
        },
        TokV::PrefixedName(p, l) => if !has_dash(l) {
            Some((Some(p), l))
        } else {
            None
        },
        _ => None,
    }
}

/// A token usable in object position: a quoted literal, a bracketed
/// identifier, or a prefixed name.
pub open spec fn obj_of(t: TokV) -> Option<(Option<Seq<char>>, Seq<char>)> {
    match t {
        TokV::Literal(x) => Some((None, x)),
        TokV::Uri(u) => Some((None, u)),
        TokV::PrefixedName(p, l) => Some((Some(p), l)),
        _ => None,
    }
}

/// Classify a whole token sequence as one line fragment.
pub open spec fn parse_toks(ts: Seq<TokV>) -> Option<ParsedLineV> {
    if ts.len() == 0 {
        None
    } else if ts[0] is AtPrefix {
        if ts.len() == 4 {
            match (ts[1], ts[2], ts[3]) {
                (TokV::NameColon(p), TokV::Uri(u), TokV::Dot) => Some(ParsedLineV::Prefix(p, u)),
                _ => None,
            }
        } else {
            None
        }
    } else if ts.len() == 1 {
        match subj_of(ts[0]) {
            Some(pn) => Some(ParsedLineV::Subject(pn.0, pn.1)),
            None => None,
        }
    } else if obj_of(ts[0]) is Some && term_of(ts.skip(1)) is Some {
        match (obj_of(ts[0]), term_of(ts.skip(1))) {
            (Some(pn), Some(TermV::More)) => Some(ParsedLineV::ContinueObj(pn.0, pn.1, true)),
            (Some(pn), Some(TermV::End)) => Some(ParsedLineV::ContinueObj(pn.0, pn.1, false)),
            _ => None,
        }
    } else if pred_of(ts[0]) is Some && obj_of(ts[1]) is Some && term_of(ts.skip(2)) is Some {
        match (pred_of(ts[0]), obj_of(ts[1]), term_of(ts.skip(2))) {
            (Some(pn), Some(on), Some(TermV::Next)) => Some(
                ParsedLineV::PredObj(pn.0, pn.1, on.0, on.1, false),
            ),
            (Some(pn), Some(on), Some(TermV::More)) => Some(
                ParsedLineV::PredObj(pn.0, pn.1, on.0, on.1, true),
            ),
            (Some(pn), Some(on), Some(TermV::End)) => Some(
                ParsedLineV::PredObjTerm(pn.0, pn.1, on.0, on.1),
            ),
            _ => None,
        }
    } else if ts.len() >= 3 && subj_of(ts[0]) is Some && pred_of(ts[1]) is Some && obj_of(ts[2])
        is Some && term_of(ts.skip(3)) is Some {
        match (subj_of(ts[0]), pred_of(ts[1]), obj_of(ts[2]), term_of(ts.skip(3))) {
            (Some(sn), Some(pn), Some(on), Some(TermV::Next)) => Some(
                ParsedLineV::SubjectPredObj(sn.0, sn.1, pn.0, pn.1, on.0, on.1, false),
            ),
            (Some(sn), Some(pn), Some(on), Some(TermV::More)) => Some(
                ParsedLineV::SubjectPredObj(sn.0, sn.1, pn.0, pn.1, on.0, on.1, true),
            ),
            (Some(sn), Some(pn), Some(on), Some(TermV::End)) => Some(
                ParsedLineV::SubjectPredObjTerm(sn.0, sn.1, pn.0, pn.1, on.0, on.1),
            ),
            _ => None,
        }
    } else {
        None
    }
}

/// What the line grammar makes of one line of text.
pub open spec fn spec_parse_line(s: Seq<char>) -> Option<ParsedLineV> {
    match spec_tokenize(s) {
        Some(ts) => parse_toks(ts),
        None => None,
    }
}

/// What the subject-name grammar makes of one piece of text: exactly one
/// subject-shaped token.
pub open spec fn spec_parse_rdf_name(s: Seq<char>) -> Option<(Option<Seq<char>>, Seq<char>)> {
    match spec_tokenize(s) {
        Some(ts) => if ts.len() == 1 {
            subj_of(ts[0])
        } else {
            None
        },
        None => None,
    }
}

fn term_at(toks: &Vec<Token>, start: usize) -> (r: Option<TermK>)
    requires
        start <= toks@.len(),
    ensures
        match r {
            Some(t) => term_of(toks@.map_values(|x: Token| x@).skip(start as int)) == Some(t@),
            None => term_of(toks@.map_values(|x: Token| x@).skip(start as int)) is None,
        },
{
    let ghost ts = toks@.map_values(|x: Token| x@).skip(start as int);
    let n = toks.len();
    proof {
        assert(ts.len() == n - start);
    }
    if n - start == 1 {
        proof {
            assert(ts[0] == toks@[start as int]@);
        }
        match &toks[start] {
            Token::Semi => Some(TermK::Next),
            Token::Comma => Some(TermK::More),
            Token::Dot => Some(TermK::End),
            _ => None,
        }
    } else if n - start == 2 {
        proof {
            assert(ts[0] == toks@[start as int]@);
            assert(ts[1] == toks@[start as int + 1]@);
        }
        match (&toks[start], &toks[start + 1]) {
            (Token::Semi, Token::Dot) => Some(TermK::End),
            (Token::Comma, Token::Dot) => Some(TermK::End),
            _ => None,
        }
    } else {
        None
    }
}

fn subj_of_exec(t: &Token) -> (r: Option<(Option<Pre>, String)>)
    ensures
        match r {
            Some(pn) => subj_of(t@) == Some((opt_pre_view(pn.0), pn.1@)),
            None => subj_of(t@) is None,
        },
{
    match t {
        Token::Name(n) => Some((None, n.clone())),
        Token::PrefixedName(p, l) => Some((Some(Pre::new(p.clone())), l.clone())),
        Token::Uri(u) => Some((None, u.clone())),
        _ => None,
    }
}

fn pred_of_exec(t: &Token) -> (r: Option<(Option<Pre>, String)>)
    ensures
        match r {
            Some(pn) => pred_of(t@) == Some((opt_pre_view(pn.0), pn.1@)),
            None => pred_of(t@) is None,
        },
{
    match t {
        Token::Name(n) => {
            let is_a = n.unicode_len() == 1 && n.as_str().get_char(0) == 'a';
            if is_a {
                proof {
                    assert(n@ =~= seq!['a']);
                    reveal_strlit("rdf");
                    reveal_strlit("type");
                    assert("rdf"@ =~= seq!['r', 'd', 'f']);
                    assert("type"@ =~= seq!['t', 'y', 'p', 'e']);
                }
                Some((Some(Pre::new(str_to_string("rdf"))), str_to_string("type")))
            } else {
                proof {
                    if n@.len() == 1 && n@[0] == 'a' {
                        assert(n@ =~= seq!['a']);
                    }
                    assert(!is_a ==> n@ != seq!['a']) by {
                        if n@ == seq!['a'] {
                            assert(n@.len() == 1 && n@[0] == 'a');
                        }
                    }
                }
                if !find_dash(n.as_str()) {
                    Some((None, n.clone()))
                } else {
                    None
                }
            }
        },
        Token::PrefixedName(p, l) => {
            if !find_dash(l.as_str()) {
                Some((Some(Pre::new(p.clone())), l.clone()))
            } else {
                None
            }
        },
        _ => None,
    }
}

fn obj_of_exec(t: &Token) -> (r: Option<(Option<Pre>, String)>)
    ensures
        match r {
            Some(pn) => obj_of(t@) == Some((opt_pre_view(pn.0), pn.1@)),
            None => obj_of(t@) is None,
        },
{
    match t {
        Token::Literal(x) => Some((None, x.clone())),
        Token::Uri(u) => Some((None, u.clone())),
        Token::PrefixedName(p, l) => Some((Some(Pre::new(p.clone())), l.clone())),
        _ => None,
    }
}

/// Classify a tokenized line.
fn classify_tokens(toks: &Vec<Token>) -> (r: Option<ParsedLine>)
    ensures
        match r {
            Some(pl) => parse_toks(toks@.map_values(|x: Token| x@)) == Some(pl@),
            None => parse_toks(toks@.map_values(|x: Token| x@)) is None,
        },
{
    let ghost ts = toks@.map_values(|x: Token| x@);
    let n = toks.len();
    proof {
        assert(ts.len() == n);
    }
    if n == 0 {
        return None;
    }
    proof {
        assert(ts[0] == toks@[0]@);
    }
    if matches!(&toks[0], Token::AtPrefix) {
        if n == 4 {
            proof {
                assert(ts[1] == toks@[1]@);
                assert(ts[2] == toks@[2]@);
                assert(ts[3] == toks@[3]@);
            }
            match (&toks[1], &toks[2], &toks[3]) {
                (Token::NameColon(p), Token::Uri(u), Token::Dot) => {
                    return Some(
                        ParsedLine::Prefix(Pre::new(p.clone()), RdfName::new(u.clone())),
                    );
                },
                _ => {
                    return None;
                },
            }
        } else {
            return None;
        }
    }
    if n == 1 {
        return match subj_of_exec(&toks[0]) {
            Some((p, nm)) => Some(ParsedLine::Subject(p, RdfName::new(nm))),
            None => None,
        };
    }
    let ot0 = obj_of_exec(&toks[0]);
    let term1 = term_at(toks, 1);
    if ot0.is_some() && term1.is_some() {
        return match (ot0, term1) {
            (Some((op, o)), Some(TermK::More)) => Some(ParsedLine::ContinueObj(op, o, true)),
            (Some((op, o)), Some(TermK::End)) => Some(ParsedLine::ContinueObj(op, o, false)),
            _ => None,
        };
    }
    proof {
        assert(ts[1] == toks@[1]@);
    }
    let pt0 = pred_of_exec(&toks[0]);
    let ot1 = obj_of_exec(&toks[1]);
    let term2 = term_at(toks, 2);
    if pt0.is_some() && ot1.is_some() && term2.is_some() {
        return match (pt0, ot1, term2) {
            (Some((pp, pn)), Some((op, o)), Some(TermK::Next)) => Some(
                ParsedLine::PredObj(pp, RdfName::new(pn), op, o, false),
            ),
            (Some((pp, pn)), Some((op, o)), Some(TermK::More)) => Some(
                ParsedLine::PredObj(pp, RdfName::new(pn), op, o, true),
            ),
            (Some((pp, pn)), Some((op, o)), Some(TermK::End)) => Some(
                ParsedLine::PredObjTerm(pp, RdfName::new(pn), op, o),
            ),
            _ => None,
        };
    }
    if n >= 3 {
        proof {
            assert(ts[2] == toks@[2]@);
        }
        let st0 = subj_of_exec(&toks[0]);
        let pt1 = pred_of_exec(&toks[1]);
        let ot2 = obj_of_exec(&toks[2]);
        let term3 = term_at(toks, 3);
        if st0.is_some() && pt1.is_some() && ot2.is_some() && term3.is_some() {
            return match (st0, pt1, ot2, term3) {
                (Some((sp, sn)), Some((pp, pn)), Some((op, o)), Some(TermK::Next)) => Some(
                    ParsedLine::SubjectPredObj(
                        sp,
                        RdfName::new(sn),
                        pp,
                        RdfName::new(pn),
                        op,
                        o,
                        false,
                    ),
                ),
                (Some((sp, sn)), Some((pp, pn)), Some((op, o)), Some(TermK::More)) => Some(
                    ParsedLine::SubjectPredObj(
                        sp,
                        RdfName::new(sn),
                        pp,
                        RdfName::new(pn),
                        op,
                        o,
                        true,
                    ),
                ),
                (Some((sp, sn)), Some((pp, pn)), Some((op, o)), Some(TermK::End)) => Some(
                    ParsedLine::SubjectPredObjTerm(
                        sp,
                        RdfName::new(sn),
                        pp,
                        RdfName::new(pn),
                        op,
                        o,
                    ),
                ),
                _ => None,
            };
        }
        return None;
    }
    None
}

/// The line parser: one instance classifies any number of lines.
pub struct LineParser;

impl LineParser {
    pub fn new() -> LineParser {
        LineParser
    }

    /// Classify one line of text, or reject it carrying the offending line.
    pub fn parse(&self, line: &str) -> (r: Result<ParsedLine, TriplesError>)
        ensures
            match r {
                Ok(pl) => spec_parse_line(line@) == Some(pl@),
                Err(e) => spec_parse_line(line@) is None && (match e {
                    TriplesError::ParseError { reason } => reason@ == line@,
                    _ => false,
                }),
            },
    {
        match tokenize(line) {
            Some(toks) => match classify_tokens(&toks) {
                Some(pl) => Ok(pl),
                None => Err(TriplesError::ParseError { reason: str_to_string(line) }),
            },
            None => Err(TriplesError::ParseError { reason: str_to_string(line) }),
        }
    }
}

/// Parses a whole prefix-declaration line.
pub struct PrefixParser;

impl PrefixParser {
    pub fn new() -> PrefixParser {
        PrefixParser
    }

    /// Accept exactly a prefix declaration; reject any other line.
    pub fn parse(&self, line: &str) -> (r: Result<(Pre, RdfName), TriplesError>)
        ensures
            match r {
                Ok(pu) => spec_parse_line(line@) == Some(ParsedLineV::Prefix(pu.0@, pu.1@)),
                Err(_) => !(spec_parse_line(line@) matches Some(ParsedLineV::Prefix(_, _))),
            },
    {
        let parser = LineParser::new();
        match parser.parse(line) {
            Ok(ParsedLine::Prefix(p, u)) => Ok((p, u)),
            Ok(_) => Err(TriplesError::ParseError { reason: str_to_string(line) }),
            Err(e) => Err(e),
        }
    }
}

/// Parses one subject name standing alone: a bare name, a prefixed name, or
/// a bracketed identifier.
pub struct RDFNameParser;

impl RDFNameParser {
    pub fn new() -> RDFNameParser {
        RDFNameParser
    }

    pub fn parse(&self, text: &str) -> (r: Result<(Option<Pre>, String), TriplesError>)
        ensures
            match r {
                Ok(pn) => spec_parse_rdf_name(text@) == Some((opt_pre_view(pn.0), pn.1@)),
                Err(_) => spec_parse_rdf_name(text@) is None,
            },
    {
        match tokenize(text) {
            Some(toks) => {
                if toks.len() == 1 {
                    proof {
                        assert(toks@.map_values(|x: Token| x@)[0] == toks@[0]@);
                    }
                    match subj_of_exec(&toks[0]) {
                        Some(pn) => Ok(pn),
                        None => Err(TriplesError::ParseError { reason: str_to_string(text) }),
                    }
                } else {
                    Err(TriplesError::ParseError { reason: str_to_string(text) })
                }
            },
            None => Err(TriplesError::ParseError { reason: str_to_string(text) }),
        }
    }
}

} // verus!

