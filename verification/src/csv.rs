//! Helpers for the tabular mapping over the store: choosing a display name
//! for an identifier and making a field safe inside a comma-separated line.

use crate::data::RdfName;
use crate::data::TriplesError;
use crate::data::str_to_string;
use crate::resolver::extract_namespace_and_local_name;
use crate::resolver::spec_split;
use crate::turtle::is_ws;
use vstd::prelude::*;

verus! {

/// Each `"` doubled, every other character kept.
pub open spec fn doubled_quotes(s: Seq<char>) -> Seq<char>
    decreases s.len(),
{
    if s.len() == 0 {
        Seq::<char>::empty()
    } else {
        doubled_quotes(s.drop_last()) + (if s.last() == '"' {
            seq!['"', '"']
        } else {
            seq![s.last()]
        })
    }
}

/// Whether a field must be quoted inside a comma-separated line: it holds a
/// comma, a line break, or a quote.
pub open spec fn needs_quoting(s: Seq<char>) -> bool {
    exists|i: int| 0 <= i < s.len() && ((#[trigger] s[i]) == ',' || s[i] == '\n' || s[i] == '"')
}

/// The sanitized form of a field: quoted with inner quotes doubled when the
/// field holds a delimiter, the field itself otherwise.
pub open spec fn sanitized(s: Seq<char>) -> Seq<char> {
    if needs_quoting(s) {
        seq!['"'] + doubled_quotes(s) + seq!['"']
    } else {
        s
    }
}

/// The name an identifier shows under in tabular output: the identifier
/// itself, or only its local name.
pub fn get_display_name(name: &RdfName, export_ns_name: bool) -> (r: Result<String, TriplesError>)
    ensures
        match r {
            Ok(d) => if export_ns_name {
                d@ == name@
            } else {
                match spec_split(name@) {
                    Some(nl) => d@ == nl.1,
                    None => false,
                }
            },
            Err(e) => !export_ns_name && spec_split(name@) is None && (match e {
                TriplesError::InvalidIRI { uri } => uri@ == name@,
                _ => false,
            }),
        },
{
    if export_ns_name {
        Ok(name.to_text())
    } else {
        match extract_namespace_and_local_name(name.as_str()) {
            Ok(nl) => Ok(nl.1),
            Err(e) => Err(e),
        }
    }
}

/// Make one field safe inside a comma-separated line.
pub fn sanitize_csv_field(field: &str) -> (r: String)
    ensures
        r@ == sanitized(field@),
{
    let n = field.unicode_len();
    let mut quoting = false;
    let mut i: usize = 0;
    while i < n
        invariant
            0 <= i <= n,
            n == field@.len(),
            quoting <==> exists|a: int|
                0 <= a < i && ((#[trigger] field@[a]) == ',' || field@[a] == '\n' || field@[a]
                    == '"'),
        decreases n - i,
    {
        let c = field.get_char(i);
        if c == ',' || c == '\n' || c == '"' {
            quoting = true;
        }
        i = i + 1;
    }
    if !quoting {
        return str_to_string(field);
    }
    let mut body = String::new();
    let mut j: usize = 0;
    proof {
        assert(field@.take(0) =~= Seq::<char>::empty());
        assert(doubled_quotes(field@.take(0)) =~= Seq::<char>::empty());
    }
    while j < n
        invariant
            0 <= j <= n,
            n == field@.len(),
            body@ == doubled_quotes(field@.take(j as int)),
        decreases n - j,
    {
        let c = field.get_char(j);
        let ghost before = body@;
        if c == '"' {
            body.append("\"\"");
            proof {
                reveal_strlit("\"\"");
                assert("\"\""@ =~= seq!['"', '"']);
            }
        } else {
            let piece = field.substring_char(j, j + 1);
            body.append(piece);
            proof {
                assert(field@.subrange(j as int, j as int + 1) =~= seq![field@[j as int]]);
            }
        }
        proof {
            assert(field@.take(j as int + 1).drop_last() =~= field@.take(j as int));
            assert(field@.take(j as int + 1).last() == field@[j as int]);
        }
        j = j + 1;
    }
    proof {
        assert(field@.take(n as int) =~= field@);
    }
    let mut r = String::new();
    r.append("\"");
    r.append(body.as_str());
    r.append("\"");
    proof {
        reveal_strlit("\"");
        assert("\""@ =~= seq!['"']);
        assert(r@ =~= seq!['"'] + doubled_quotes(field@) + seq!['"']);
    }
    r
}


/// The position of the first comma at or after `i`, if any.
pub open spec fn comma_from(s: Seq<char>, i: int) -> Option<int>
    decreases s.len() - i,
{
    if 0 <= i < s.len() {
        if s[i] == ',' {
            Some(i)
        } else {
            comma_from(s, i + 1)
        }
    } else {
        None
    }
}

/// Where the leading whitespace of `s` ends.
pub open spec fn ws_start(s: Seq<char>) -> int
    decreases s.len(),
{
    if s.len() > 0 && is_ws(s[0]) {
        1 + ws_start(s.skip(1))
    } else {
        0
    }
}

/// Where the trailing whitespace of `s` begins.
pub open spec fn ws_end(s: Seq<char>) -> int
    decreases s.len(),
{
    if s.len() > 0 && is_ws(s.last()) {
        ws_end(s.drop_last())
    } else {
        s.len() as int
    }
}

/// `s` with leading and trailing whitespace removed.
pub open spec fn trimmed(s: Seq<char>) -> Seq<char> {
    if ws_start(s) < ws_end(s) {
        s.subrange(ws_start(s), ws_end(s))
    } else {
        Seq::<char>::empty()
    }
}

/// One line of triples-table input, split at its first two commas into
/// subject, predicate and object, each with surrounding whitespace removed.
pub open spec fn spec_parse_csv_line(s: Seq<char>) -> Option<(Seq<char>, Seq<char>, Seq<char>)> {
    match comma_from(s, 0) {
        None => None,
        Some(i) => match comma_from(s, i + 1) {
            None => None,
            Some(j) => Some(
                (trimmed(s.take(i)), trimmed(s.subrange(i + 1, j)), trimmed(s.skip(j + 1))),
            ),
        },
    }
}

proof fn lemma_ws_start(s: Seq<char>)
    ensures
        0 <= ws_start(s) <= s.len(),
        forall|a: int| 0 <= a < ws_start(s) ==> is_ws(#[trigger] s[a]),
        ws_start(s) < s.len() ==> !is_ws(s[ws_start(s)]),
    decreases s.len(),
{
    if s.len() > 0 && is_ws(s[0]) {
        lemma_ws_start(s.skip(1));
        assert forall|a: int| 0 <= a < ws_start(s) implies is_ws(#[trigger] s[a]) by {
            if a > 0 {
                assert(s.skip(1)[a - 1] == s[a]);
            }
        }
        if ws_start(s) < s.len() {
            assert(s.skip(1)[ws_start(s) - 1] == s[ws_start(s)]);
        }
    }
}

/// The position of the first comma at or after `from`, scanning.
fn comma_from_exec(s: &str, from: usize) -> (r: Option<usize>)
    requires
        from <= s@.len(),
    ensures
        match r {
            Some(i) => comma_from(s@, from as int) == Some(i as int) && from <= i < s@.len(),
            None => comma_from(s@, from as int) is None,
        },
{
    let n = s.unicode_len();
    let mut i = from;
    while i < n
        invariant
            from <= i <= n,
            n == s@.len(),
            comma_from(s@, from as int) == comma_from(s@, i as int),
        decreases n - i,
    {
        if s.get_char(i) == ',' {
            return Some(i);
        }
        i = i + 1;
    }
    None
}

/// Where the leading whitespace of `s` ends, scanning.
fn ws_start_exec(s: &str) -> (r: usize)
    ensures
        r == ws_start(s@),
        r <= s@.len(),
{
    let n = s.unicode_len();
    let mut a: usize = 0;
    proof {
        lemma_ws_start(s@);
    }
    while a < n
        invariant
            0 <= a <= n,
            n == s@.len(),
            forall|x: int| 0 <= x < a ==> is_ws(#[trigger] s@[x]),
            0 <= ws_start(s@) <= s@.len(),
            forall|x: int| 0 <= x < ws_start(s@) ==> is_ws(#[trigger] s@[x]),
            ws_start(s@) < s@.len() ==> !is_ws(s@[ws_start(s@)]),
        decreases n - a,
    {
        let c = s.get_char(a);
        if c == ' ' || c == '\t' || c == '\r' || c == '\n' {
            a = a + 1;
        } else {
            proof {
                assert(!is_ws(s@[a as int]));
                if ws_start(s@) < a {
                    assert(is_ws(s@[ws_start(s@)]));
                }
                assert(ws_start(s@) == a);
            }
            return a;
        }
    }
    proof {
        if ws_start(s@) < n {
            assert(is_ws(s@[ws_start(s@)]));
            assert(!is_ws(s@[ws_start(s@)]));
        }
    }
    a
}

/// Where the trailing whitespace of `s` begins, scanning.
fn ws_end_exec(s: &str) -> (r: usize)
    ensures
        r == ws_end(s@),
        r <= s@.len(),
{
    let n = s.unicode_len();
    let mut e: usize = n;
    proof {
        assert(s@.take(n as int) =~= s@);
    }
    while e > 0
        invariant
            0 <= e <= n,
            n == s@.len(),
            ws_end(s@) == ws_end(s@.take(e as int)),
        decreases e,
    {
        let c = s.get_char(e - 1);
        proof {
            assert(s@.take(e as int).last() == s@[e as int - 1]);
        }
        if c == ' ' || c == '\t' || c == '\r' || c == '\n' {
            proof {
                assert(s@.take(e as int).drop_last() =~= s@.take(e as int - 1));
            }
            e = e - 1;
        } else {
            proof {
                assert(ws_end(s@.take(e as int)) == e as int);
            }
            return e;
        }
    }
    proof {
        assert(s@.take(0) =~= Seq::<char>::empty());
        assert(ws_end(s@.take(0)) == 0);
    }
    0
}

/// A copy of `s` with leading and trailing whitespace removed.
fn trim_ws(s: &str) -> (r: String)
    ensures
        r@ == trimmed(s@),
{
    let a = ws_start_exec(s);
    let e = ws_end_exec(s);
    if a < e {
        str_to_string(s.substring_char(a, e))
    } else {
        proof {
            assert(trimmed(s@) =~= Seq::<char>::empty());
        }
        String::new()
    }
}

/// Split one triples-table line at its first two commas; a line with fewer
/// than three fields is rejected carrying the line.
pub fn parse_csv_line(line: &str) -> (r: Result<(String, String, String), TriplesError>)
    ensures
        match r {
            Ok(t) => spec_parse_csv_line(line@) == Some((t.0@, t.1@, t.2@)),
            Err(e) => spec_parse_csv_line(line@) is None && (match e {
                TriplesError::ParseError { reason } => reason@ == line@,
                _ => false,
            }),
        },
{
    let n = line.unicode_len();
    let first = match comma_from_exec(line, 0) {
        Some(i) => i,
        None => {
            return Err(TriplesError::ParseError { reason: str_to_string(line) });
        },
    };
    let second = match comma_from_exec(line, first + 1) {
        Some(j) => j,
        None => {
            return Err(TriplesError::ParseError { reason: str_to_string(line) });
        },
    };
    let subject = trim_ws(line.substring_char(0, first));
    let predicate = trim_ws(line.substring_char(first + 1, second));
    let object = trim_ws(line.substring_char(second + 1, n));
    proof {
        assert(line@.subrange(0, first as int) =~= line@.take(first as int));
        assert(line@.subrange(second as int + 1, n as int) =~= line@.skip(second as int + 1));
    }
    Ok((subject, predicate, object))
}

} // verus!

