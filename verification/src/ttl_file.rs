//! The serializer: recomputes a minimal prefix set by namespace-splitting the
//! stored names and renders each subject as one block of text lines -- the
//! inverse of assembly, sharing the resolver's split rule.
//!
//! Rendering policy: subject and predicate names are written as prefixed
//! names; an object value holding `:/` is written as a bracketed reference,
//! any other object as a quoted literal, never prefix-compressed.  Each
//! predicate/object pair gets its own line; the last line of a block ends in
//! `.`, every other one in `;`.

use crate::data::Subject;
use crate::data::TriplesError;
use crate::data::str_to_string;
use crate::resolver::extract_namespace_and_local_name;
use crate::resolver::spec_join;
use crate::resolver::spec_resolve;
use crate::resolver::spec_split;
use crate::resolver::splittable;
use crate::store::lemma_rows_membership;
use crate::store::lemma_rows_stable;
use crate::store::row_triples;
use crate::store::rows_of;
use crate::store::subject_rows;
use crate::turtle::TokV;
use crate::turtle::at_prefix_word;
use crate::turtle::has_dash;
use crate::turtle::is_name_char;
use crate::turtle::lemma_close_angle_exact;
use crate::turtle::close_quote;
use crate::turtle::lemma_close_quote_exact;
use crate::turtle::lemma_close_quote_shift;
use crate::turtle::lemma_name_end_exact;
use crate::turtle::lemma_skip_ws_exact;
use crate::turtle::parse_toks;
use crate::turtle::spec_parse_line;
use crate::turtle::spec_tokenize;
use crate::turtle::tok_at;
use crate::turtle::toks_from;
use crate::turtle_stream::AsmV;
use crate::turtle_stream::ParsedLineV;
use crate::turtle_stream::StateV;
use crate::turtle_stream::SubjV;
use crate::turtle_stream::lemma_spec_run_concat;
use crate::turtle_stream::spec_run;
use crate::turtle_stream::spec_step;
use vstd::prelude::*;

verus! {

/// A valid prefix mnemonic: non-empty, name characters only, no hyphen.
pub open spec fn mnemonic_ok(s: Seq<char>) -> bool {
    s.len() > 0 && forall|i: int| 0 <= i < s.len() ==> is_name_char(#[trigger] s[i]) && s[i] != '-'
}

/// Relies on std's `String::push`: appends one character at the end.
#[verifier::external_body]
fn string_push(s: &mut String, c: char)
    ensures
        final(s)@ == old(s)@.push(c),
{
    s.push(c);
}

/// A table assigning a short alias to each namespace met during one export,
/// with unique namespaces and unique, well-formed aliases.
pub struct PrefixAliases {
    entries: Vec<(String, String)>,
}

impl PrefixAliases {
    /// How many namespaces have an alias.
    pub closed spec fn len_s(&self) -> int {
        self.entries@.len() as int
    }

    /// The namespace of entry `i`.
    pub closed spec fn ns_at(&self, i: int) -> Seq<char> {
        self.entries@[i].0@
    }

    /// The alias of entry `i`.
    pub closed spec fn alias_at(&self, i: int) -> Seq<char> {
        self.entries@[i].1@
    }

    /// Whether a namespace has an alias.
    pub open spec fn has_ns(&self, ns: Seq<char>) -> bool {
        exists|i: int| 0 <= i < self.len_s() && self.ns_at(i) == ns
    }

    /// The alias of namespace `ns`.
    pub open spec fn alias_of(&self, ns: Seq<char>) -> Seq<char> {
        self.alias_at(choose|i: int| 0 <= i < self.len_s() && self.ns_at(i) == ns)
    }

    /// Structural invariant: namespaces unique, aliases unique and valid.
    pub open spec fn wf(&self) -> bool {
        &&& forall|i: int, j: int| 0 <= i < j < self.len_s() ==> self.ns_at(i) != self.ns_at(j)
        &&& forall|i: int, j: int|
            0 <= i < j < self.len_s() ==> self.alias_at(i) != self.alias_at(j)
        &&& forall|i: int| 0 <= i < self.len_s() ==> mnemonic_ok(#[trigger] self.alias_at(i))
    }

    /// A namespace with an alias has a well-formed one.
    pub proof fn lemma_alias_shape(&self, ns: Seq<char>)
        requires
            self.wf(),
            self.has_ns(ns),
        ensures
            mnemonic_ok(self.alias_of(ns)),
    {
        let i = choose|i: int| 0 <= i < self.len_s() && self.ns_at(i) == ns;
        self.lemma_at(i);
        assert(mnemonic_ok(self.alias_at(i)));
    }

    /// With unique namespaces, the alias at entry `i`'s namespace is that
    /// entry's alias.
    pub proof fn lemma_at(&self, i: int)
        requires
            self.wf(),
            0 <= i < self.len_s(),
        ensures
            self.has_ns(self.ns_at(i)),
            self.alias_of(self.ns_at(i)) == self.alias_at(i),
    {
        let w = choose|w: int| 0 <= w < self.len_s() && self.ns_at(w) == self.ns_at(i);
        assert(w == i);
    }

    pub fn new() -> (r: Self)
        ensures
            r.wf(),
            r.len_s() == 0,
    {
        PrefixAliases { entries: Vec::new() }
    }

    /// How many namespaces have an alias.
    pub fn len(&self) -> (r: usize)
        ensures
            r == self.len_s(),
    {
        self.entries.len()
    }

    /// The (namespace, alias) pair at entry `i`.
    pub fn entry_at(&self, i: usize) -> (r: &(String, String))
        requires
            i < self.len_s(),
        ensures
            r.0@ == self.ns_at(i as int),
            r.1@ == self.alias_at(i as int),
    {
        &self.entries[i]
    }

    fn find_ns(&self, ns: &str) -> (r: Option<usize>)
        ensures
            match r {
                Some(i) => 0 <= i < self.len_s() && self.ns_at(i as int) == ns@,
                None => !self.has_ns(ns@),
            },
    {
        let owned = ns.to_owned();
        let n = self.entries.len();
        for i in 0..n
            invariant
                n == self.len_s(),
                owned@ == ns@,
                forall|j: int| 0 <= j < i ==> self.ns_at(j) != ns@,
        {
            if self.entries[i].0 == owned {
                return Some(i);
            }
        }
        None
    }

    fn alias_taken(&self, alias: &String) -> (r: bool)
        ensures
            r == exists|i: int| 0 <= i < self.len_s() && #[trigger] self.alias_at(i) == alias@,
    {
        let n = self.entries.len();
        for i in 0..n
            invariant
                n == self.len_s(),
                forall|j: int| 0 <= j < i ==> self.alias_at(j) != alias@,
        {
            if self.entries[i].1 == *alias {
                proof {
                    assert(self.alias_at(i as int) == alias@);
                }
                return true;
            }
        }
        false
    }

    /// The alias of `ns`, if one was already minted.
    pub fn lookup(&self, ns: &str) -> (r: Option<&String>)
        requires
            self.wf(),
        ensures
            match r {
                Some(a) => self.has_ns(ns@) && a@ == self.alias_of(ns@),
                None => !self.has_ns(ns@),
            },
    {
        match self.find_ns(ns) {
            Some(i) => {
                proof {
                    self.lemma_at(i as int);
                }
                Some(&self.entries[i].1)
            },
            None => None,
        }
    }

    /// A fresh mnemonic no entry uses yet: the base itself when free,
    /// otherwise the base lengthened past every alias in the table.
    fn mint_unique_alias(&self, base: &String) -> (r: String)
        requires
            self.wf(),
            mnemonic_ok(base@),
        ensures
            mnemonic_ok(r@),
            forall|i: int| 0 <= i < self.len_s() ==> #[trigger] self.alias_at(i) != r@,
    {
        if !self.alias_taken(base) {
            return base.clone();
        }
        let mut maxlen: usize = 0;
        let n = self.entries.len();
        for i in 0..n
            invariant
                n == self.len_s(),
                forall|j: int| 0 <= j < i ==> (#[trigger] self.alias_at(j)).len() <= maxlen,
        {
            let l = self.entries[i].1.unicode_len();
            if l > maxlen {
                maxlen = l;
            }
        }
        let mut cand = base.clone();
        while cand.unicode_len() <= maxlen
            invariant
                mnemonic_ok(cand@),
                forall|j: int| 0 <= j < self.len_s() ==> (#[trigger] self.alias_at(j)).len()
                    <= maxlen,
            decreases maxlen + 1 - cand@.len(),
        {
            string_push(&mut cand, 'x');
            proof {
                assert forall|a: int| 0 <= a < cand@.len() implies is_name_char(
                    #[trigger] cand@[a],
                ) && cand@[a] != '-' by {}
            }
        }
        cand
    }

    /// The alias of `ns`, minting a fresh one on first use: the lowercased
    /// letters of the namespace's last path segment (up to five, `ns` when it
    /// has none), lengthened until it clashes with no other alias.  An
    /// existing namespace is a no-op lookup.
    pub fn get_or_insert_prefix(&mut self, ns: &str) -> (r: String)
        requires
            old(self).wf(),
        ensures
            final(self).wf(),
            final(self).has_ns(ns@),
            r@ == final(self).alias_of(ns@),
            mnemonic_ok(r@),
            forall|x: Seq<char>| old(self).has_ns(x) ==> final(self).has_ns(x),
            old(self).has_ns(ns@) ==> *final(self) == *old(self),
            !old(self).has_ns(ns@) ==> final(self).len_s() == old(self).len_s() + 1
                && final(self).ns_at(old(self).len_s()) == ns@ && (forall|i: int|
                0 <= i < old(self).len_s() ==> #[trigger] final(self).ns_at(i) == old(self).ns_at(i)
                    && #[trigger] final(self).alias_at(i) == old(self).alias_at(i)),
    {
        let found = self.find_ns(ns);
        match found {
            Some(i) => {
                proof {
                    self.lemma_at(i as int);
                    assert(mnemonic_ok(self.alias_at(i as int)));
                }
                self.entries[i].1.clone()
            },
            None => {
                let base = mint_alias_base(ns);
                let alias = self.mint_unique_alias(&base);
                let ghost old_self = *self;
                let ghost k = ns@;
                let ghost a = alias@;
                self.entries.push((str_to_string(ns), alias.clone()));
                proof {
                    let n = old_self.len_s();
                    assert forall|i: int| 0 <= i < n implies #[trigger] self.ns_at(i)
                        == old_self.ns_at(i) && #[trigger] self.alias_at(i) == old_self.alias_at(
                        i,
                    ) by {
                        assert(self.entries@[i] == old_self.entries@[i]);
                    }
                    assert(self.ns_at(n) == k);
                    assert(self.alias_at(n) == a);
                    assert forall|i: int, j: int| 0 <= i < j < self.len_s() implies self.ns_at(i)
                        != self.ns_at(j) by {
                        if j == n {
                            assert(old_self.ns_at(i) != k);
                        } else {
                            assert(old_self.ns_at(i) != old_self.ns_at(j));
                        }
                    }
                    assert forall|i: int, j: int| 0 <= i < j < self.len_s() implies self.alias_at(
                        i,
                    ) != self.alias_at(j) by {
                        if j == n {
                            assert(old_self.alias_at(i) != a);
                        } else {
                            assert(old_self.alias_at(i) != old_self.alias_at(j));
                        }
                    }
                    assert forall|i: int| 0 <= i < self.len_s() implies mnemonic_ok(
                        #[trigger] self.alias_at(i),
                    ) by {
                        if i < n {
                            assert(self.alias_at(i) == old_self.alias_at(i));
                        }
                    }
                    assert(self.wf());
                    self.lemma_at(n);
                    assert forall|x: Seq<char>| old_self.has_ns(x) implies self.has_ns(x) by {
                        let w = choose|w: int|
                            0 <= w < old_self.len_s() && old_self.ns_at(w) == x;
                        assert(self.ns_at(w) == x);
                    }
                }
                alias
            },
        }
    }
}

/// The lower-case form of an ASCII letter, other characters unchanged.
fn lower_ascii(c: char) -> (r: char)
    ensures
        ('a' <= c && c <= 'z') || ('A' <= c && c <= 'Z') ==> 'a' <= r && r <= 'z',
{
    match c {
        'A' => 'a',
        'B' => 'b',
        'C' => 'c',
        'D' => 'd',
        'E' => 'e',
        'F' => 'f',
        'G' => 'g',
        'H' => 'h',
        'I' => 'i',
        'J' => 'j',
        'K' => 'k',
        'L' => 'l',
        'M' => 'm',
        'N' => 'n',
        'O' => 'o',
        'P' => 'p',
        'Q' => 'q',
        'R' => 'r',
        'S' => 's',
        'T' => 't',
        'U' => 'u',
        'V' => 'v',
        'W' => 'w',
        'X' => 'x',
        'Y' => 'y',
        'Z' => 'z',
        _ => c,
    }
}

/// The lowercased letters of the last non-empty `/`-separated segment of
/// `ns`, up to five of them; `ns` when the segment has no letters.
fn mint_alias_base(ns: &str) -> (r: String)
    ensures
        mnemonic_ok(r@),
{
    let n = ns.unicode_len();
    let mut end: usize = n;
    while end > 0
        invariant
            end <= n,
            n == ns@.len(),
        decreases end,
    {
        if ns.get_char(end - 1) != '/' {
            break ;
        }
        end = end - 1;
    }
    let mut start: usize = end;
    while start > 0
        invariant
            start <= end <= n,
            n == ns@.len(),
        decreases start,
    {
        if ns.get_char(start - 1) == '/' {
            break ;
        }
        start = start - 1;
    }
    let mut r = String::new();
    let mut i = start;
    while i < end
        invariant
            start <= i <= end <= n,
            n == ns@.len(),
            forall|a: int| 0 <= a < r@.len() ==> is_name_char(#[trigger] r@[a]) && r@[a] != '-',
            r@.len() <= 5,
        decreases end - i,
    {
        if r.unicode_len() >= 5 {
            break ;
        }
        let c = ns.get_char(i);
        if ('a' <= c && c <= 'z') || ('A' <= c && c <= 'Z') {
            let lowered = lower_ascii(c);
            string_push(&mut r, lowered);
        }
        i = i + 1;
    }
    if r.unicode_len() == 0 {
        let mut fallback = String::new();
        string_push(&mut fallback, 'n');
        string_push(&mut fallback, 's');
        proof {
            assert forall|a: int| 0 <= a < fallback@.len() implies is_name_char(
                #[trigger] fallback@[a],
            ) && fallback@[a] != '-' by {}
        }
        fallback
    } else {
        r
    }
}

/// Whether an object value looks like an absolute identifier: it holds the
/// two-character sequence `:/`.
pub open spec fn has_colon_slash(o: Seq<char>) -> bool {
    exists|i: int| 0 <= i && i + 1 < o.len() && #[trigger] o[i] == ':' && o[i + 1] == '/'
}

/// The rendered text of one object: bracketed when it looks like an absolute
/// identifier, quoted otherwise, the value itself untouched either way.
pub open spec fn render_obj_text(o: Seq<char>) -> Seq<char> {
    if has_colon_slash(o) {
        seq!['<'] + o + seq!['>']
    } else {
        seq!['"'] + o + seq!['"']
    }
}

/// The rendered text of one prefix declaration line.
pub open spec fn prefix_line_text(alias: Seq<char>, ns: Seq<char>) -> Seq<char> {
    "@prefix "@ + alias + ": <"@ + ns + "> ."@
}

/// The rendered text of one subject head line.
pub open spec fn subject_line_text(alias: Seq<char>, local: Seq<char>) -> Seq<char> {
    alias + seq![':'] + local
}

/// The rendered text of one predicate/object line; the last line of a block
/// closes it with `.`, every other one continues with `;`.
pub open spec fn pair_line_text(alias: Seq<char>, local: Seq<char>, o: Seq<char>, last: bool) -> Seq<
    char,
> {
    "    "@ + alias + seq![':'] + local + seq![' '] + render_obj_text(o) + (if last {
        " ."@
    } else {
        " ;"@
    })
}

/// Whether the subject's own name splits and its namespace has an alias.
pub open spec fn head_renderable(s: &Subject, t: &PrefixAliases) -> bool {
    match spec_split(s.name_view()) {
        Some(nl) => t.has_ns(nl.0),
        None => false,
    }
}

/// Whether predicate `i`'s name splits and its namespace has an alias.
pub open spec fn pred_renderable(s: &Subject, t: &PrefixAliases, i: int) -> bool {
    match spec_split(s.pred_view(i)) {
        Some(nl) => t.has_ns(nl.0),
        None => false,
    }
}

/// Whether a subject can be rendered against an alias table: its name and
/// every predicate split, and every namespace has an alias.
pub open spec fn block_renderable(s: &Subject, t: &PrefixAliases) -> bool {
    &&& head_renderable(s, t)
    &&& forall|i: int|
        0 <= i < s.num_pairs() ==> (match spec_split(#[trigger] s.pred_view(i)) {
            Some(nl) => t.has_ns(nl.0),
            None => false,
        })
}

/// Whether some name of the subject -- its own or a predicate's -- cannot be
/// split into namespace and local name.
pub open spec fn has_unsplittable_name(s: &Subject) -> bool {
    spec_split(s.name_view()) is None || exists|q: int|
        0 <= q < s.num_pairs() && spec_split(#[trigger] s.pred_view(q)) is None
}

/// The subject head line of `s` under table `t`.
pub open spec fn subject_line_of(s: &Subject, t: &PrefixAliases) -> Seq<char> {
    match spec_split(s.name_view()) {
        Some(nl) => subject_line_text(t.alias_of(nl.0), nl.1),
        None => Seq::<char>::empty(),
    }
}

/// The predicate/object line for predicate `p` and object `o` under `t`.
pub open spec fn pair_line_of(p: Seq<char>, o: Seq<char>, t: &PrefixAliases, last: bool) -> Seq<
    char,
> {
    match spec_split(p) {
        Some(nl) => pair_line_text(t.alias_of(nl.0), nl.1, o, last),
        None => Seq::<char>::empty(),
    }
}

/// The whole rendered block of one subject: its head line, then one line per
/// (predicate, object) pair in row order, the last one `.`-terminated.
pub open spec fn block_lines(s: &Subject, t: &PrefixAliases) -> Seq<Seq<char>> {
    let flat = subject_rows(s);
    seq![subject_line_of(s, t)] + Seq::new(
        flat.len(),
        |k: int| pair_line_of(flat[k].1, flat[k].2, t, k == flat.len() - 1),
    )
}

/// The prefix declaration lines of a whole table, in entry order.
pub open spec fn prefix_lines_of(t: &PrefixAliases) -> Seq<Seq<char>> {
    Seq::new(t.len_s() as nat, |i: int| prefix_line_text(t.alias_at(i), t.ns_at(i)))
}

/// The blocks of the first `upto` subjects, concatenated.
pub open spec fn blocks_concat(subjects: Seq<Subject>, t: &PrefixAliases, upto: int) -> Seq<
    Seq<char>,
>
    decreases upto,
{
    if upto <= 0 {
        Seq::<Seq<char>>::empty()
    } else {
        blocks_concat(subjects, t, upto - 1) + block_lines(&subjects[upto - 1], t)
    }
}

/// Whether `o` holds `:/`, scanning the characters.
fn has_colon_slash_exec(o: &str) -> (r: bool)
    ensures
        r == has_colon_slash(o@),
{
    let n = o.unicode_len();
    if n < 2 {
        return false;
    }
    let mut i: usize = 0;
    while i + 1 < n
        invariant
            0 <= i,
            i + 1 <= n,
            n == o@.len(),
            forall|a: int| 0 <= a && a + 1 < i + 1 ==> !(#[trigger] o@[a] == ':' && o@[a + 1] == '/'),
        decreases n - i,
    {
        if o.get_char(i) == ':' && o.get_char(i + 1) == '/' {
            return true;
        }
        i = i + 1;
    }
    false
}

/// Render one object value per the policy above.
fn render_object(o: &str) -> (r: String)
    ensures
        r@ == render_obj_text(o@),
{
    let mut r = String::new();
    if has_colon_slash_exec(o) {
        r.append("<");
        r.append(o);
        r.append(">");
        proof {
            reveal_strlit("<");
            reveal_strlit(">");
            assert("<"@ =~= seq!['<']);
            assert(">"@ =~= seq!['>']);
            assert(r@ =~= seq!['<'] + o@ + seq!['>']);
        }
    } else {
        r.append("\"");
        r.append(o);
        r.append("\"");
        proof {
            reveal_strlit("\"");
            assert("\""@ =~= seq!['"']);
            assert(r@ =~= seq!['"'] + o@ + seq!['"']);
        }
    }
    r
}

/// Render one prefix declaration line.
fn render_prefix_line(alias: &str, ns: &str) -> (r: String)
    ensures
        r@ == prefix_line_text(alias@, ns@),
{
    let mut r = String::new();
    r.append("@prefix ");
    r.append(alias);
    r.append(": <");
    r.append(ns);
    r.append("> .");
    r
}

/// Render one subject head line.
fn render_subject_line(alias: &str, local: &str) -> (r: String)
    ensures
        r@ == subject_line_text(alias@, local@),
{
    let mut r = String::new();
    r.append(alias);
    r.append(":");
    r.append(local);
    proof {
        reveal_strlit(":");
        assert(":"@ =~= seq![':']);
        assert(r@ =~= alias@ + seq![':'] + local@);
    }
    r
}

/// Render one predicate/object line.
fn render_pair_line(alias: &str, local: &str, object: &str, last: bool) -> (r: String)
    ensures
        r@ == pair_line_text(alias@, local@, object@, last),
{
    let mut r = String::new();
    r.append("    ");
    r.append(alias);
    r.append(":");
    r.append(local);
    r.append(" ");
    let obj = render_object(object);
    r.append(obj.as_str());
    if last {
        r.append(" .");
    } else {
        r.append(" ;");
    }
    proof {
        reveal_strlit(":");
        reveal_strlit(" ");
        assert(":"@ =~= seq![':']);
        assert(" "@ =~= seq![' ']);
        assert(r@ =~= pair_line_text(alias@, local@, object@, last));
    }
    r
}

/// Render the prefix declaration lines of a table, in entry order.
pub fn render_prefix_lines(t: &PrefixAliases) -> (r: Vec<String>)
    requires
        t.wf(),
    ensures
        r@.map_values(|l: String| l@) == prefix_lines_of(t),
{
    let mut r: Vec<String> = Vec::new();
    let n = t.len();
    for i in 0..n
        invariant
            n == t.len_s(),
            r@.len() == i,
            forall|j: int|
                0 <= j < i ==> #[trigger] r@[j]@ == prefix_line_text(t.alias_at(j), t.ns_at(j)),
    {
        let entry = t.entry_at(i);
        r.push(render_prefix_line(entry.1.as_str(), entry.0.as_str()));
    }
    proof {
        assert(r@.map_values(|l: String| l@) =~= prefix_lines_of(t));
    }
    r
}

/// A table that only gained namespaces keeps every subject renderable.
proof fn lemma_renderable_monotone(
    subjects: Seq<Subject>,
    upto: int,
    t0: &PrefixAliases,
    t1: &PrefixAliases,
)
    requires
        forall|x: Seq<char>| t0.has_ns(x) ==> t1.has_ns(x),
        forall|j: int| 0 <= j < upto ==> block_renderable(&subjects[j], t0),
    ensures
        forall|j: int| 0 <= j < upto ==> block_renderable(&subjects[j], t1),
{
    assert forall|j: int| 0 <= j < upto implies block_renderable(&subjects[j], t1) by {
        let s = &subjects[j];
        match spec_split(s.name_view()) {
            Some(nl) => {
                assert(t0.has_ns(nl.0));
            },
            None => {},
        }
        assert forall|q: int| 0 <= q < s.num_pairs() implies (match spec_split(
            #[trigger] s.pred_view(q),
        ) {
            Some(nl) => t1.has_ns(nl.0),
            None => false,
        }) by {
            match spec_split(s.pred_view(q)) {
                Some(nl) => {
                    assert(t0.has_ns(nl.0));
                },
                None => {},
            }
        }
    }
}

/// Mint an alias for every namespace a subject's name and predicates live
/// in.  This fails only on an identifier that cannot be split: on a store
/// whose names all split, success is owed.
pub fn compute_prefixes(subjects: &Vec<Subject>) -> (r: Result<PrefixAliases, TriplesError>)
    ensures
        match r {
            Ok(t) => t.wf() && forall|i: int|
                0 <= i < subjects@.len() ==> block_renderable(&subjects@[i], &t),
            Err(e) => e matches TriplesError::InvalidIRI { .. } && (exists|i: int|
                0 <= i < subjects@.len() && has_unsplittable_name(#[trigger] &subjects@[i])),
        },
{
    let mut t = PrefixAliases::new();
    let n = subjects.len();
    for i in 0..n
        invariant
            t.wf(),
            n == subjects@.len(),
            forall|j: int| 0 <= j < i ==> block_renderable(&subjects@[j], &t),
    {
        let ghost t0 = t;
        let s = &subjects[i];
        let name_text = s.name().to_text();
        let (ns, _local) = match extract_namespace_and_local_name(name_text.as_str()) {
            Ok(nl) => nl,
            Err(e) => {
                proof {
                    assert(has_unsplittable_name(&subjects@[i as int]));
                }
                return Err(e);
            },
        };
        t.get_or_insert_prefix(ns.as_str());
        proof {
            lemma_renderable_monotone(subjects@, i as int, &t0, &t);
        }
        let pairs = s.predicate_object_pairs();
        let m = pairs.len();
        for p in 0..m
            invariant
                t.wf(),
                n == subjects@.len(),
                m == s.num_pairs(),
                pairs@.len() == m,
                s == &subjects@[i as int],
                0 <= i < n,
                forall|q: int|
                    0 <= q < m ==> (#[trigger] pairs@[q]).0@ == s.pred_view(q),
                forall|j: int| 0 <= j < i ==> block_renderable(&subjects@[j], &t),
                (match spec_split(s.name_view()) {
                    Some(nl) => t.has_ns(nl.0),
                    None => false,
                }),
                forall|q: int|
                    0 <= q < p ==> (match spec_split(#[trigger] s.pred_view(q)) {
                        Some(nl) => t.has_ns(nl.0),
                        None => false,
                    }),
        {
            let ghost t1 = t;
            let pred_text = pairs[p].0.to_text();
            let (pns, _plocal) = match extract_namespace_and_local_name(pred_text.as_str()) {
                Ok(nl) => nl,
                Err(e) => {
                    proof {
                        assert(spec_split(s.pred_view(p as int)) is None);
                        assert(has_unsplittable_name(&subjects@[i as int]));
                    }
                    return Err(e);
                },
            };
            t.get_or_insert_prefix(pns.as_str());
            proof {
                lemma_renderable_monotone(subjects@, i as int, &t1, &t);
                assert forall|q: int| 0 <= q < p + 1 implies (match spec_split(
                    #[trigger] s.pred_view(q),
                ) {
                    Some(nl) => t.has_ns(nl.0),
                    None => false,
                }) by {
                    if q < p {
                        match spec_split(s.pred_view(q)) {
                            Some(nl) => {
                                assert(t1.has_ns(nl.0));
                            },
                            None => {},
                        }
                    } else {
                        assert(s.pred_view(p as int) == pred_text@);
                    }
                }
                match spec_split(s.name_view()) {
                    Some(nl) => {
                        assert(t1.has_ns(nl.0));
                    },
                    None => {},
                }
            }
        }
        proof {
            assert(block_renderable(&subjects@[i as int], &t));
        }
    }
    Ok(t)
}

/// Render every subject as one block against the alias table.
pub fn render_subject_block(s: &Subject, t: &PrefixAliases) -> (r: Result<
    Vec<String>,
    TriplesError,
>)
    requires
        s.wf(),
        t.wf(),
        s.num_pairs() > 0,
        subject_rows(s).len() <= usize::MAX,
    ensures
        match r {
            Ok(lines) => block_renderable(s, t) && lines@.map_values(|l: String| l@)
                == block_lines(s, t),
            Err(e) => !block_renderable(s, t) && (match e {
                TriplesError::InvalidIRI { uri } => spec_split(uri@) is None && (uri@
                    == s.name_view() || (exists|i: int|
                    0 <= i < s.num_pairs() && uri@ == #[trigger] s.pred_view(i) && head_renderable(
                        s,
                        t,
                    ) && (forall|q: int| 0 <= q < i ==> pred_renderable(s, t, q)))),
                TriplesError::UnresolvableURIPrefix { prefix_name, name } => (match spec_split(
                    name@,
                ) {
                    Some(nl) => prefix_name@ == nl.0 && !t.has_ns(nl.0),
                    None => false,
                }) && (name@ == s.name_view() || (exists|i: int|
                    0 <= i < s.num_pairs() && name@ == #[trigger] s.pred_view(i) && head_renderable(
                        s,
                        t,
                    ) && (forall|q: int| 0 <= q < i ==> pred_renderable(s, t, q)))),
                _ => false,
            }),
        },
{
    let ghost flat = subject_rows(s);
    let name_text = s.name().to_text();
    let (ns, local) = match extract_namespace_and_local_name(name_text.as_str()) {
        Ok(nl) => nl,
        Err(e) => {
            proof {
                assert(!head_renderable(s, t));
            }
            return Err(e);
        },
    };
    let alias = match t.lookup(ns.as_str()) {
        Some(a) => a.clone(),
        None => {
            proof {
                assert(!head_renderable(s, t));
            }
            return Err(
                TriplesError::UnresolvableURIPrefix { prefix_name: ns, name: name_text },
            );
        },
    };
    let mut lines: Vec<String> = Vec::new();
    lines.push(render_subject_line(alias.as_str(), local.as_str()));
    proof {
        assert(lines@[0]@ == subject_line_of(s, t));
    }
    // total number of pair lines, to mark the block-closing line
    let pairs = s.predicate_object_pairs();
    let n = pairs.len();
    let mut total: usize = 0;
    for i in 0..n
        invariant
            n == s.num_pairs(),
            pairs@.len() == n,
            forall|q: int|
                0 <= q < n ==> (#[trigger] pairs@[q]).1@.map_values(|o: String| o@)
                    == s.objs_view(q),
            total == rows_of(s, i as int).len(),
            flat == subject_rows(s),
            flat.len() <= usize::MAX,
    {
        proof {
            assert(rows_of(s, i as int + 1) == rows_of(s, i as int) + row_triples(s, i as int));
            lemma_rows_stable(s, i as int + 1, s.num_pairs());
            assert(rows_of(s, i as int + 1).len() <= flat.len());
        }
        let m = pairs[i].1.len();
        proof {
            assert(m == s.objs_view(i as int).len());
            assert(rows_of(s, i as int + 1).len() == total + m);
        }
        total = total + m;
    }
    proof {
        assert(total == flat.len());
    }
    let mut cnt: usize = 0;
    for i in 0..n
        invariant
            s.wf(),
            t.wf(),
            n == s.num_pairs(),
            pairs@.len() == n,
            total == flat.len(),
            flat == subject_rows(s),
            forall|q: int|
                0 <= q < n ==> (#[trigger] pairs@[q]).0@ == s.pred_view(q)
                    && pairs@[q].1@.map_values(|o: String| o@) == s.objs_view(q),
            cnt == rows_of(s, i as int).len(),
            cnt <= total,
            lines@.len() == 1 + cnt,
            lines@[0]@ == subject_line_of(s, t),
            forall|k: int|
                0 <= k < cnt ==> #[trigger] lines@[1 + k]@ == pair_line_of(
                    flat[k].1,
                    flat[k].2,
                    t,
                    k == flat.len() - 1,
                ),
            (match spec_split(s.name_view()) {
                Some(nl) => t.has_ns(nl.0),
                None => false,
            }),
            forall|q: int|
                0 <= q < i ==> (match spec_split(#[trigger] s.pred_view(q)) {
                    Some(nl) => t.has_ns(nl.0),
                    None => false,
                }),
    {
        let pred_text = pairs[i].0.to_text();
        let (pns, plocal) = match extract_namespace_and_local_name(pred_text.as_str()) {
            Ok(nl) => nl,
            Err(e) => {
                proof {
                    assert(pred_text@ == s.pred_view(i as int));
                    assert(!pred_renderable(s, t, i as int));
                    assert(forall|q: int| 0 <= q < i ==> pred_renderable(s, t, q));
                    assert(head_renderable(s, t));
                }
                return Err(e);
            },
        };
        let palias = match t.lookup(pns.as_str()) {
            Some(a) => a.clone(),
            None => {
                proof {
                    assert(pred_text@ == s.pred_view(i as int));
                    assert(!pred_renderable(s, t, i as int));
                    assert(forall|q: int| 0 <= q < i ==> pred_renderable(s, t, q));
                    assert(head_renderable(s, t));
                }
                return Err(
                    TriplesError::UnresolvableURIPrefix { prefix_name: pns, name: pred_text },
                );
            },
        };
        let row = &pairs[i].1;
        let m = row.len();
        proof {
            assert(rows_of(s, i as int + 1) == rows_of(s, i as int) + row_triples(s, i as int));
            lemma_rows_stable(s, i as int + 1, s.num_pairs());
            assert(m == s.objs_view(i as int).len());
        }
        for j in 0..m
            invariant
                s.wf(),
                t.wf(),
                0 <= i < n,
                n == s.num_pairs(),
                total == flat.len(),
                flat == subject_rows(s),
                m == s.objs_view(i as int).len(),
                row@.map_values(|o: String| o@) == s.objs_view(i as int),
                cnt == rows_of(s, i as int).len(),
                cnt + m <= total,
                palias@ == (match spec_split(s.pred_view(i as int)) {
                    Some(nl) => t.alias_of(nl.0),
                    None => Seq::<char>::empty(),
                }),
                plocal@ == (match spec_split(s.pred_view(i as int)) {
                    Some(nl) => nl.1,
                    None => Seq::<char>::empty(),
                }),
                spec_split(s.pred_view(i as int)) is Some,
                (match spec_split(s.pred_view(i as int)) {
                    Some(nl) => t.has_ns(nl.0),
                    None => false,
                }),
                lines@.len() == 1 + cnt + j,
                lines@[0]@ == subject_line_of(s, t),
                forall|k: int|
                    0 <= k < cnt + j ==> #[trigger] lines@[1 + k]@ == pair_line_of(
                        flat[k].1,
                        flat[k].2,
                        t,
                        k == flat.len() - 1,
                    ),
            decreases m - j,
        {
            let last = cnt + j + 1 == total;
            proof {
                let ki = cnt + j;
                assert(rows_of(s, i as int + 1)[ki as int] == row_triples(s, i as int)[j as int]);
                lemma_rows_stable(s, i as int + 1, s.num_pairs());
                assert(flat[ki as int] == row_triples(s, i as int)[j as int]);
                assert(flat[ki as int] == (
                    s.name_view(),
                    s.pred_view(i as int),
                    s.objs_view(i as int)[j as int],
                ));
                // the closing line is exactly the final flattened pair
                if i as int == n - 1 {
                    assert(total == rows_of(s, i as int).len() + m);
                } else {
                    lemma_rows_stable(s, i as int + 1, n - 1 as int);
                    assert(rows_of(s, n as int) == rows_of(s, n - 1 as int) + row_triples(
                        s,
                        n - 1 as int,
                    ));
                    assert(s.objs_view(n - 1 as int).len() > 0);
                    assert(total > rows_of(s, i as int + 1).len());
                }
            }
            let line = render_pair_line(
                palias.as_str(),
                plocal.as_str(),
                row[j].as_str(),
                last,
            );
            lines.push(line);
            proof {
                assert(s.objs_view(i as int)[j as int] == row@[j as int]@);
                assert(lines@[1 + (cnt + j) as int]@ == pair_line_of(
                    flat[(cnt + j) as int].1,
                    flat[(cnt + j) as int].2,
                    t,
                    (cnt + j) as int == flat.len() - 1,
                ));
            }
        }
        cnt = cnt + m;
        proof {
            assert(cnt == rows_of(s, i as int + 1).len());
        }
    }
    proof {
        assert(block_renderable(s, t));
        let lv = lines@.map_values(|l: String| l@);
        assert(lv.len() == block_lines(s, t).len());
        assert forall|idx: int| 0 <= idx < lv.len() implies lv[idx] == block_lines(s, t)[idx] by {
            if idx == 0 {
                assert(lv[0] == lines@[0]@);
            } else {
                let k = idx - 1;
                assert(lines@[1 + k]@ == pair_line_of(
                    flat[k].1,
                    flat[k].2,
                    t,
                    k == flat.len() - 1,
                ));
                assert(lv[idx] == lines@[idx]@);
            }
        }
        assert(lines@.map_values(|l: String| l@) =~= block_lines(s, t));
    }
    Ok(lines)
}

/// Serialize a whole collection of subjects: a freshly computed prefix table,
/// its declaration lines, then one block per subject in order.  This fails
/// only when some stored name cannot be split: on a store whose names all
/// split, success is owed.
pub fn export_turtle_lines(subjects: &Vec<Subject>) -> (r: Result<
    (PrefixAliases, Vec<String>),
    TriplesError,
>)
    requires
        forall|i: int| 0 <= i < subjects@.len() ==> (#[trigger] subjects@[i]).wf(),
        forall|i: int| 0 <= i < subjects@.len() ==> (#[trigger] subjects@[i]).num_pairs() > 0,
        forall|i: int|
            0 <= i < subjects@.len() ==> subject_rows(#[trigger] &subjects@[i]).len()
                <= usize::MAX,
    ensures
        match r {
            Ok(tl) => tl.0.wf() && (forall|i: int|
                0 <= i < subjects@.len() ==> block_renderable(&subjects@[i], &tl.0))
                && tl.1@.map_values(|l: String| l@) == prefix_lines_of(&tl.0) + blocks_concat(
                subjects@,
                &tl.0,
                subjects@.len() as int,
            ),
            Err(e) => e matches TriplesError::InvalidIRI { .. } && (exists|i: int|
                0 <= i < subjects@.len() && has_unsplittable_name(#[trigger] &subjects@[i])),
        },
{
    let t = match compute_prefixes(subjects) {
        Ok(t) => t,
        Err(e) => {
            return Err(e);
        },
    };
    let mut lines = render_prefix_lines(&t);
    let n = subjects.len();
    proof {
        assert(lines@.map_values(|l: String| l@) + blocks_concat(subjects@, &t, 0)
            =~= prefix_lines_of(&t));
    }
    for i in 0..n
        invariant
            t.wf(),
            n == subjects@.len(),
            forall|j: int| 0 <= j < n ==> (#[trigger] subjects@[j]).wf(),
            forall|j: int| 0 <= j < n ==> (#[trigger] subjects@[j]).num_pairs() > 0,
            forall|j: int|
                0 <= j < n ==> subject_rows(#[trigger] &subjects@[j]).len() <= usize::MAX,
            forall|j: int| 0 <= j < n ==> block_renderable(&subjects@[j], &t),
            lines@.map_values(|l: String| l@) == prefix_lines_of(&t) + blocks_concat(
                subjects@,
                &t,
                i as int,
            ),
    {
        let ghost before = lines@.map_values(|l: String| l@);
        let block = match render_subject_block(&subjects[i], &t) {
            Ok(b) => b,
            Err(e) => {
                // cannot happen: every subject is renderable against `t`
                proof {
                    assert(block_renderable(&subjects@[i as int], &t));
                    assert(false);
                }
                return Err(e);
            },
        };
        let ghost block_views = block@.map_values(|l: String| l@);
        let mut block_mut = block;
        let bn = block_mut.len();
        for b in 0..bn
            invariant
                bn == block_views.len(),
                block_mut@.len() == bn - b,
                forall|q: int|
                    0 <= q < bn - b ==> #[trigger] block_mut@[q]@ == block_views[b + q],
                lines@.map_values(|l: String| l@) == before + block_views.take(b as int),
            decreases bn - b,
        {
            let piece = block_mut.remove(0);
            proof {
                assert(piece@ == block_views[b as int]);
            }
            let ghost lv_before = lines@.map_values(|l: String| l@);
            lines.push(piece);
            proof {
                assert(lines@.map_values(|l: String| l@) =~= lv_before.push(
                    block_views[b as int],
                ));
                assert(lv_before.push(block_views[b as int]) =~= before + block_views.take(
                    b as int + 1,
                ));
            }
        }
        proof {
            assert(block_views.take(bn as int) =~= block_views);
            assert(blocks_concat(subjects@, &t, i as int + 1) == blocks_concat(
                subjects@,
                &t,
                i as int,
            ) + block_lines(&subjects@[i as int], &t));
            assert(lines@.map_values(|l: String| l@) =~= prefix_lines_of(&t) + blocks_concat(
                subjects@,
                &t,
                i as int + 1,
            ));
        }
    }
    Ok((t, lines))
}


/// Record one (predicate, object) pair in a predicate-to-object-set mapping.
pub open spec fn record_pair(
    m: Map<Seq<char>, Set<Seq<char>>>,
    p: Seq<char>,
    o: Seq<char>,
) -> Map<Seq<char>, Set<Seq<char>>> {
    m.insert(
        p,
        (if m.contains_key(p) {
            m[p]
        } else {
            Set::<Seq<char>>::empty()
        }).insert(o),
    )
}

/// The mapping built by recording the first `upto` flattened pairs in order.
pub open spec fn fold_pairs(flat: Seq<(Seq<char>, Seq<char>, Seq<char>)>, upto: int) -> Map<
    Seq<char>,
    Set<Seq<char>>,
>
    decreases upto,
{
    if upto <= 0 {
        Map::<Seq<char>, Set<Seq<char>>>::empty()
    } else {
        record_pair(fold_pairs(flat, upto - 1), flat[upto - 1].1, flat[upto - 1].2)
    }
}

/// What the fold holds is exactly the pairs recorded so far.
proof fn lemma_fold_membership(flat: Seq<(Seq<char>, Seq<char>, Seq<char>)>, upto: int)
    requires
        0 <= upto <= flat.len(),
    ensures
        forall|p: Seq<char>|
            fold_pairs(flat, upto).contains_key(p) <==> (exists|k: int|
                0 <= k < upto && (#[trigger] flat[k]).1 == p),
        forall|p: Seq<char>, o: Seq<char>|
            #![trigger fold_pairs(flat, upto)[p].contains(o)]
            (fold_pairs(flat, upto).contains_key(p) && fold_pairs(flat, upto)[p].contains(o))
                <==> (exists|k: int| 0 <= k < upto && #[trigger] flat[k] == (flat[k].0, p, o)),
    decreases upto,
{
    if upto > 0 {
        lemma_fold_membership(flat, upto - 1);
        let prev = fold_pairs(flat, upto - 1);
        let cur = fold_pairs(flat, upto);
        let lp = flat[upto - 1].1;
        let lo = flat[upto - 1].2;
        assert(flat[upto - 1] == (flat[upto - 1].0, lp, lo));
        assert forall|p: Seq<char>| cur.contains_key(p) implies (exists|k: int|
            0 <= k < upto && (#[trigger] flat[k]).1 == p) by {
            if p == lp {
                assert(flat[upto - 1].1 == p);
            } else {
                assert(prev.contains_key(p));
                let k = choose|k: int| 0 <= k < upto - 1 && (#[trigger] flat[k]).1 == p;
                assert(flat[k].1 == p);
            }
        }
        assert forall|p: Seq<char>|
            (exists|k: int| 0 <= k < upto && (#[trigger] flat[k]).1 == p) implies cur.contains_key(
            p,
        ) by {
            let k = choose|k: int| 0 <= k < upto && (#[trigger] flat[k]).1 == p;
            if k < upto - 1 {
                assert(prev.contains_key(p));
            }
        }
        assert forall|p: Seq<char>, o: Seq<char>|
            #![trigger cur[p].contains(o)]
            (cur.contains_key(p) && cur[p].contains(o)) <==> (exists|k: int|
                0 <= k < upto && #[trigger] flat[k] == (flat[k].0, p, o)) by {
            if p == lp {
                assert(cur[p] == (if prev.contains_key(p) {
                    prev[p]
                } else {
                    Set::<Seq<char>>::empty()
                }).insert(lo));
                if cur.contains_key(p) && cur[p].contains(o) {
                    if o == lo {
                        assert(flat[upto - 1] == (flat[upto - 1].0, p, o));
                    } else {
                        assert(prev.contains_key(p) && prev[p].contains(o));
                        let k = choose|k: int|
                            0 <= k < upto - 1 && #[trigger] flat[k] == (flat[k].0, p, o);
                        assert(flat[k] == (flat[k].0, p, o));
                    }
                }
                if exists|k: int| 0 <= k < upto && #[trigger] flat[k] == (flat[k].0, p, o) {
                    let k = choose|k: int|
                        0 <= k < upto && #[trigger] flat[k] == (flat[k].0, p, o);
                    if k < upto - 1 {
                        assert(prev.contains_key(p) && prev[p].contains(o));
                    } else {
                        assert(o == lo);
                    }
                }
            } else {
                assert(cur.contains_key(p) <==> prev.contains_key(p));
                if prev.contains_key(p) {
                    assert(cur[p] == prev[p]);
                }
                if exists|k: int| 0 <= k < upto && #[trigger] flat[k] == (flat[k].0, p, o) {
                    let k = choose|k: int|
                        0 <= k < upto && #[trigger] flat[k] == (flat[k].0, p, o);
                    assert(k < upto - 1);
                    assert(prev.contains_key(p) && prev[p].contains(o));
                }
            }
        }
    }
}

/// Folding a subject's whole flattened relation rebuilds its mapping.
proof fn lemma_fold_rows(s: &Subject)
    requires
        s.wf(),
    ensures
        fold_pairs(subject_rows(s), subject_rows(s).len() as int) =~= s.pairs_map(),
{
    let flat = subject_rows(s);
    let l = flat.len() as int;
    lemma_fold_membership(flat, l);
    lemma_rows_membership(s, s.num_pairs());
    let m = fold_pairs(flat, l);
    assert forall|p: Seq<char>| m.contains_key(p) implies s.pairs_map().contains_key(p) by {
        let k = choose|k: int| 0 <= k < l && (#[trigger] flat[k]).1 == p;
        assert(flat.contains(flat[k]));
        assert(rows_of(s, s.num_pairs()).contains(flat[k]));
        let (i, a) = choose|i: int, a: int|
            0 <= i < s.num_pairs() && 0 <= a < s.objs_view(i).len() && flat[k] == (
                s.name_view(),
                s.pred_view(i),
                s.objs_view(i)[a],
            );
        assert(s.has_pred(p));
    }
    assert forall|p: Seq<char>| s.pairs_map().contains_key(p) implies m.contains_key(p) by {
        let i = choose|i: int| 0 <= i < s.num_pairs() && s.pred_view(i) == p;
        assert(s.objs_view(i).len() > 0);
        let o0 = s.objs_view(i)[0];
        assert(rows_of(s, s.num_pairs()).contains((s.name_view(), p, o0)));
        let k = choose|k: int| 0 <= k < flat.len() && #[trigger] flat[k] == (s.name_view(), p, o0);
        assert(flat[k].1 == p);
    }
    assert forall|p: Seq<char>| #[trigger]
        m.contains_key(p) && s.pairs_map().contains_key(p) implies m[p] =~= s.pairs_map()[p] by {
        assert forall|o: Seq<char>| m[p].contains(o) implies s.pairs_map()[p].contains(o) by {
            let k = choose|k: int| 0 <= k < l && #[trigger] flat[k] == (flat[k].0, p, o);
            assert(rows_of(s, s.num_pairs()).contains(flat[k]));
            let (i, a) = choose|i: int, a: int|
                0 <= i < s.num_pairs() && 0 <= a < s.objs_view(i).len() && flat[k] == (
                    s.name_view(),
                    s.pred_view(i),
                    s.objs_view(i)[a],
                );
            assert(s.objs_view(i).contains(o));
        }
        assert forall|o: Seq<char>| s.pairs_map()[p].contains(o) implies m[p].contains(o) by {
            let i = choose|i: int|
                0 <= i < s.num_pairs() && #[trigger] s.pred_view(i) == p && s.objs_view(i).contains(
                    o,
                );
            assert(rows_of(s, s.num_pairs()).contains((s.name_view(), p, o)));
            let k = choose|k: int|
                0 <= k < flat.len() && #[trigger] flat[k] == (s.name_view(), p, o);
            assert(flat[k] == (flat[k].0, p, o));
        }
    }
}

/// The subject head fragment a rendered block begins with.
pub open spec fn subject_fragment(s: &Subject, t: &PrefixAliases) -> ParsedLineV {
    match spec_split(s.name_view()) {
        Some(nl) => ParsedLineV::Subject(Some(t.alias_of(nl.0)), nl.1),
        None => ParsedLineV::Subject(None, Seq::<char>::empty()),
    }
}

/// The predicate/object fragment of one rendered pair line.
pub open spec fn pair_fragment(p: Seq<char>, o: Seq<char>, t: &PrefixAliases, last: bool) -> ParsedLineV {
    match spec_split(p) {
        Some(nl) => if last {
            ParsedLineV::PredObjTerm(Some(t.alias_of(nl.0)), nl.1, None, o)
        } else {
            ParsedLineV::PredObj(Some(t.alias_of(nl.0)), nl.1, None, o, false)
        },
        None => ParsedLineV::PredObjTerm(None, Seq::<char>::empty(), None, o),
    }
}

/// The fragment sequence a rendered block stands for: one fragment per line,
/// in line order.
pub open spec fn block_fragments(s: &Subject, t: &PrefixAliases) -> Seq<ParsedLineV> {
    let flat = subject_rows(s);
    seq![subject_fragment(s, t)] + Seq::new(
        flat.len(),
        |k: int| pair_fragment(flat[k].1, flat[k].2, t, k == flat.len() - 1),
    )
}

/// An import-side prefix table that reverses the export table: every alias
/// binds back to its namespace.
pub open spec fn reverses(p: Map<Seq<char>, Seq<char>>, t: &PrefixAliases) -> bool {
    forall|ns: Seq<char>|
        #[trigger] t.has_ns(ns) ==> p.contains_key(t.alias_of(ns)) && p[t.alias_of(ns)] == ns
}

/// Running the tail of a block's fragments from a mid-block assembler state.
proof fn lemma_run_pairs(s: &Subject, t: &PrefixAliases, p: Map<Seq<char>, Seq<char>>, k: int)
    requires
        s.wf(),
        t.wf(),
        s.num_pairs() > 0,
        block_renderable(s, t),
        forall|i: int| 0 <= i < s.num_pairs() ==> splittable(#[trigger] s.pred_view(i)),
        reverses(p, t),
        0 <= k < subject_rows(s).len(),
    ensures
        ({
            let flat = subject_rows(s);
            let frags = Seq::new(
                flat.len(),
                |q: int| pair_fragment(flat[q].1, flat[q].2, t, q == flat.len() - 1),
            );
            let m = AsmV {
                state: StateV::PredicateLoading,
                prefixes: p,
                current: Some(SubjV { name: s.name_view(), pairs: fold_pairs(flat, k) }),
            };
            match spec_run(m, frags.skip(k)) {
                Ok(res) => res.0.state is SubjectLoading && res.0.current is None && res.1
                    =~= seq![
                    SubjV { name: s.name_view(), pairs: fold_pairs(flat, flat.len() as int) },
                ],
                Err(_) => false,
            }
        }),
    decreases subject_rows(s).len() - k,
{
    let flat = subject_rows(s);
    let frags = Seq::new(
        flat.len(),
        |q: int| pair_fragment(flat[q].1, flat[q].2, t, q == flat.len() - 1),
    );
    let fk = frags.skip(k);
    assert(fk.len() == flat.len() - k);
    assert(fk[0] == frags[k]);
    let pr = flat[k].1;
    let ob = flat[k].2;
    // the predicate of row k splits and resolves back to itself
    lemma_rows_membership(s, s.num_pairs());
    assert(flat.contains(flat[k]));
    assert(rows_of(s, s.num_pairs()).contains(flat[k]));
    let (i, a) = choose|i: int, a: int|
        0 <= i < s.num_pairs() && 0 <= a < s.objs_view(i).len() && flat[k] == (
            s.name_view(),
            s.pred_view(i),
            s.objs_view(i)[a],
        );
    assert(pr == s.pred_view(i));
    assert(splittable(pr));
    let nl = spec_split(pr)->Some_0;
    assert(t.has_ns(nl.0));
    let alias = t.alias_of(nl.0);
    assert(p.contains_key(alias) && p[alias] == nl.0);
    assert(spec_resolve(Some(alias), nl.1, p) == Some(spec_join(nl.0, nl.1)));
    assert(spec_join(nl.0, nl.1) == pr);
    assert(spec_resolve(None, ob, p) == Some(ob));
    let m = AsmV {
        state: StateV::PredicateLoading,
        prefixes: p,
        current: Some(SubjV { name: s.name_view(), pairs: fold_pairs(flat, k) }),
    };
    let cur = SubjV { name: s.name_view(), pairs: fold_pairs(flat, k) };
    assert(add_pair_v(cur, pr, ob) == SubjV { name: s.name_view(), pairs: fold_pairs(flat, k + 1) });
    if k == flat.len() - 1 {
        assert(fk[0] == pair_fragment(pr, ob, t, true));
        match spec_step(m, fk[0]) {
            Ok(step1) => {
                assert(step1.0.state is SubjectLoading && step1.0.current is None);
                assert(step1.1 == Some(
                    SubjV { name: s.name_view(), pairs: fold_pairs(flat, flat.len() as int) },
                ));
                assert(fk.skip(1).len() == 0);
                assert(spec_run(step1.0, fk.skip(1)) == Ok::<(AsmV, Seq<SubjV>), crate::turtle_stream::StepErr>(
                    (step1.0, Seq::<SubjV>::empty()),
                ));
                match spec_run(m, fk) {
                    Ok(res) => {
                        assert(res.0 == step1.0);
                        assert(res.1 == seq![step1.1->Some_0] + Seq::<SubjV>::empty());
                        assert(res.1 =~= seq![
                            SubjV {
                                name: s.name_view(),
                                pairs: fold_pairs(flat, flat.len() as int),
                            },
                        ]);
                    },
                    Err(_) => {
                        assert(false);
                    },
                }
            },
            Err(_) => {
                assert(false);
            },
        }
    } else {
        assert(fk[0] == pair_fragment(pr, ob, t, false));
        match spec_step(m, fk[0]) {
            Ok(step1) => {
                assert(step1.1 is None);
                assert(step1.0 == AsmV {
                    state: StateV::PredicateLoading,
                    prefixes: p,
                    current: Some(SubjV { name: s.name_view(), pairs: fold_pairs(flat, k + 1) }),
                });
                lemma_run_pairs(s, t, p, k + 1);
                assert(fk.skip(1) =~= frags.skip(k + 1));
                assert(fk.skip(1) == frags.skip(k + 1));
                match spec_run(step1.0, fk.skip(1)) {
                    Ok(rest) => {
                        assert(rest.0.state is SubjectLoading && rest.0.current is None);
                        assert(rest.1 =~= seq![
                            SubjV {
                                name: s.name_view(),
                                pairs: fold_pairs(flat, flat.len() as int),
                            },
                        ]);
                        match spec_run(m, fk) {
                            Ok(res) => {
                                assert(res.0 == rest.0);
                                assert(res.1 == Seq::<SubjV>::empty() + rest.1);
                                assert(res.1 =~= rest.1);
                                assert(res.1 =~= seq![
                                    SubjV {
                                        name: s.name_view(),
                                        pairs: fold_pairs(flat, flat.len() as int),
                                    },
                                ]);
                            },
                            Err(_) => {
                                assert(false);
                            },
                        }
                    },
                    Err(_) => {
                        assert(false);
                    },
                }
            },
            Err(_) => {
                assert(false);
            },
        }
    }
}

/// Running a strict prefix of a block's pair fragments from a mid-block
/// assembler state emits nothing and leaves the block open.
proof fn lemma_run_pairs_partial(
    s: &Subject,
    t: &PrefixAliases,
    p: Map<Seq<char>, Seq<char>>,
    k: int,
    upto: int,
)
    requires
        s.wf(),
        t.wf(),
        s.num_pairs() > 0,
        block_renderable(s, t),
        forall|i: int| 0 <= i < s.num_pairs() ==> splittable(#[trigger] s.pred_view(i)),
        reverses(p, t),
        0 <= k <= upto <= subject_rows(s).len() - 1,
    ensures
        ({
            let flat = subject_rows(s);
            let frags = Seq::new(
                flat.len(),
                |q: int| pair_fragment(flat[q].1, flat[q].2, t, q == flat.len() - 1),
            );
            let m = AsmV {
                state: StateV::PredicateLoading,
                prefixes: p,
                current: Some(SubjV { name: s.name_view(), pairs: fold_pairs(flat, k) }),
            };
            match spec_run(m, frags.subrange(k, upto)) {
                Ok(res) => res.1 =~= Seq::<SubjV>::empty() && res.0 == AsmV {
                    state: StateV::PredicateLoading,
                    prefixes: p,
                    current: Some(SubjV { name: s.name_view(), pairs: fold_pairs(flat, upto) }),
                },
                Err(_) => false,
            }
        }),
    decreases upto - k,
{
    let flat = subject_rows(s);
    let frags = Seq::new(
        flat.len(),
        |q: int| pair_fragment(flat[q].1, flat[q].2, t, q == flat.len() - 1),
    );
    let fk = frags.subrange(k, upto);
    let m = AsmV {
        state: StateV::PredicateLoading,
        prefixes: p,
        current: Some(SubjV { name: s.name_view(), pairs: fold_pairs(flat, k) }),
    };
    if k == upto {
        assert(fk.len() == 0);
    } else {
        assert(fk[0] == frags[k]);
        let pr = flat[k].1;
        let ob = flat[k].2;
        lemma_rows_membership(s, s.num_pairs());
        assert(flat.contains(flat[k]));
        assert(rows_of(s, s.num_pairs()).contains(flat[k]));
        let (i, a) = choose|i: int, a: int|
            0 <= i < s.num_pairs() && 0 <= a < s.objs_view(i).len() && flat[k] == (
                s.name_view(),
                s.pred_view(i),
                s.objs_view(i)[a],
            );
        assert(pr == s.pred_view(i));
        assert(splittable(pr));
        let nl = spec_split(pr)->Some_0;
        assert(t.has_ns(nl.0));
        let alias = t.alias_of(nl.0);
        assert(p.contains_key(alias) && p[alias] == nl.0);
        assert(spec_resolve(Some(alias), nl.1, p) == Some(spec_join(nl.0, nl.1)));
        assert(spec_join(nl.0, nl.1) == pr);
        assert(spec_resolve(None, ob, p) == Some(ob));
        let cur = SubjV { name: s.name_view(), pairs: fold_pairs(flat, k) };
        assert(add_pair_v(cur, pr, ob) == SubjV {
            name: s.name_view(),
            pairs: fold_pairs(flat, k + 1),
        });
        assert(k < flat.len() - 1);
        assert(fk[0] == pair_fragment(pr, ob, t, false));
        match spec_step(m, fk[0]) {
            Ok(step1) => {
                assert(step1.1 is None);
                assert(step1.0 == AsmV {
                    state: StateV::PredicateLoading,
                    prefixes: p,
                    current: Some(SubjV { name: s.name_view(), pairs: fold_pairs(flat, k + 1) }),
                });
                lemma_run_pairs_partial(s, t, p, k + 1, upto);
                assert(fk.skip(1) =~= frags.subrange(k + 1, upto));
                assert(fk.skip(1) == frags.subrange(k + 1, upto));
                match spec_run(step1.0, fk.skip(1)) {
                    Ok(rest) => {
                        assert(Seq::<SubjV>::empty() + rest.1 =~= rest.1);
                    },
                    Err(_) => {
                        assert(false);
                    },
                }
            },
            Err(_) => {
                assert(false);
            },
        }
    }
}

/// The view-level image of `add_pair` on a subject image.
pub open spec fn add_pair_v(s: SubjV, pi: Seq<char>, oi: Seq<char>) -> SubjV {
    crate::turtle_stream::add_pair(s, pi, oi)
}

/// Round trip: a subject rendered as a block and replayed fragment by
/// fragment through a fresh assembler -- with the declared prefixes binding
/// each alias back to its namespace -- is emitted exactly once, with the
/// same name and the same predicate-to-object-set mapping.
pub proof fn lemma_round_trip(s: &Subject, t: &PrefixAliases, p: Map<Seq<char>, Seq<char>>)
    requires
        s.wf(),
        t.wf(),
        s.num_pairs() > 0,
        block_renderable(s, t),
        splittable(s.name_view()),
        forall|i: int| 0 <= i < s.num_pairs() ==> splittable(#[trigger] s.pred_view(i)),
        reverses(p, t),
    ensures
        ({
            let start = AsmV { state: StateV::SubjectLoading, prefixes: p, current: None };
            match spec_run(start, block_fragments(s, t)) {
                Ok(res) => {
                    &&& res.0.state is SubjectLoading
                    &&& res.0.current is None
                    &&& res.1.len() == 1
                    &&& res.1[0].name == s.name_view()
                    &&& res.1[0].pairs =~= s.pairs_map()
                },
                Err(_) => false,
            }
        }),
{
    let flat = subject_rows(s);
    let frags = block_fragments(s, t);
    let start = AsmV { state: StateV::SubjectLoading, prefixes: p, current: None };
    // the head fragment resolves the subject name back to itself
    let nl = spec_split(s.name_view())->Some_0;
    assert(t.has_ns(nl.0));
    let alias = t.alias_of(nl.0);
    assert(p.contains_key(alias) && p[alias] == nl.0);
    assert(frags[0] == subject_fragment(s, t));
    assert(spec_resolve(Some(alias), nl.1, p) == Some(spec_join(nl.0, nl.1)));
    assert(spec_join(nl.0, nl.1) == s.name_view());
    // rows are non-empty, so there is at least one pair fragment
    assert(s.objs_view(0).len() > 0);
    assert(rows_of(s, 1) == rows_of(s, 0) + row_triples(s, 0));
    lemma_rows_stable(s, 1, s.num_pairs());
    assert(flat.len() > 0);
    match spec_step(start, frags[0]) {
        Ok(step1) => {
            assert(step1.1 is None);
            assert(step1.0.state is PredicateLoading);
            assert(step1.0.current == Some(
                SubjV { name: s.name_view(), pairs: Map::<Seq<char>, Set<Seq<char>>>::empty() },
            ));
            assert(fold_pairs(flat, 0) =~= Map::<Seq<char>, Set<Seq<char>>>::empty());
            assert(step1.0.current == Some(SubjV { name: s.name_view(), pairs: fold_pairs(flat, 0) }));
            lemma_run_pairs(s, t, p, 0);
            let pair_frags = Seq::new(
                flat.len(),
                |q: int| pair_fragment(flat[q].1, flat[q].2, t, q == flat.len() - 1),
            );
            let m0 = AsmV {
                state: StateV::PredicateLoading,
                prefixes: p,
                current: Some(SubjV { name: s.name_view(), pairs: fold_pairs(flat, 0) }),
            };
            assert(step1.0 == m0);
            assert(frags.skip(1) =~= pair_frags.skip(0));
            assert(frags.skip(1) == pair_frags.skip(0));
            match spec_run(step1.0, frags.skip(1)) {
                Ok(rest) => {
                    assert(rest.0.state is SubjectLoading && rest.0.current is None);
                    assert(rest.1 =~= seq![
                        SubjV { name: s.name_view(), pairs: fold_pairs(flat, flat.len() as int) },
                    ]);
                    assert(Seq::<SubjV>::empty() + rest.1 =~= rest.1);
                    lemma_fold_rows(s);
                    assert(rest.1[0].pairs =~= s.pairs_map());
                    match spec_run(start, frags) {
                        Ok(res) => {
                            assert(res.0 == rest.0);
                            assert(res.1 =~= rest.1);
                            assert(res.1.len() == 1);
                            assert(res.1[0].name == s.name_view());
                            assert(res.1[0].pairs =~= s.pairs_map());
                        },
                        Err(_) => {
                            assert(false);
                        },
                    }
                },
                Err(_) => {
                    assert(false);
                },
            }
        },
        Err(_) => {
            assert(false);
        },
    }
}


/// A name-character run, as prefix mnemonics and rendered local names must
/// be: non-empty and made of letters, digits, `_` and `-` only.
pub open spec fn plain_name(s: Seq<char>) -> bool {
    s.len() > 0 && forall|i: int| 0 <= i < s.len() ==> is_name_char(#[trigger] s[i])
}

/// An object value that renders into a quoted literal and scans back out of
/// it unchanged: it holds no quote and no backslash.
pub open spec fn literal_safe(o: Seq<char>) -> bool {
    forall|i: int| 0 <= i < o.len() ==> (#[trigger] o[i]) != '"' && o[i] != '\\'
}

/// The exact condition under which a quoted object scans back verbatim: the
/// quote scan over the value and its closing quote lands on that closing
/// quote.  Every literal-safe value has this shape, and so does every value
/// whose quotes all sit inside backslash escape pairs.
pub open spec fn quote_scan_ok(o: Seq<char>) -> bool {
    close_quote(o.push('"'), 0) == Some(o.len() as int)
}

/// A value free of quotes and backslashes scans back verbatim.
pub proof fn lemma_literal_safe_scans(o: Seq<char>)
    requires
        literal_safe(o),
    ensures
        quote_scan_ok(o),
{
    let t = o.push('"');
    assert forall|x: int| 0 <= x < o.len() implies (#[trigger] t[x]) != '"' && t[x]
        != '\\' by {
        assert(t[x] == o[x]);
    }
    assert(t[o.len() as int] == '"');
    lemma_close_quote_exact(t, 0, o.len() as int);
}

/// A namespace identifier as a bracketed reference needs it: non-empty and
/// free of the closing bracket.
pub open spec fn bracket_safe(u: Seq<char>) -> bool {
    u.len() > 0 && forall|i: int| 0 <= i < u.len() ==> (#[trigger] u[i]) != '>'
}

/// A rendered prefix declaration line parses back to exactly its own
/// declaration.
#[verifier::rlimit(100)]
pub proof fn lemma_parse_prefix_line(alias: Seq<char>, ns: Seq<char>)
    requires
        mnemonic_ok(alias),
        bracket_safe(ns),
    ensures
        spec_parse_line(prefix_line_text(alias, ns)) == Some(ParsedLineV::Prefix(alias, ns)),
{
    reveal_strlit("@prefix ");
    reveal_strlit(": <");
    reveal_strlit("> .");
    let line = prefix_line_text(alias, ns);
    let la = alias.len() as int;
    let lns = ns.len() as int;
    let n = line.len() as int;
    assert(n == 11 + la + lns + 3);
    assert(line.subrange(0, 8) =~= "@prefix "@);
    assert(line.subrange(8, 8 + la) =~= alias);
    assert(line.subrange(8 + la, 11 + la) =~= ": <"@);
    assert(line.subrange(11 + la, 11 + la + lns) =~= ns);
    assert(line.subrange(11 + la + lns, n) =~= "> ."@);
    assert forall|x: int| 0 <= x < 8 implies line[x] == "@prefix "@[x] by {
        assert(line.subrange(0, 8)[x] == line[x]);
    }
    assert forall|x: int| 8 <= x < 8 + la implies #[trigger] line[x] == alias[x - 8] by {
        assert(line.subrange(8, 8 + la)[x - 8] == line[x]);
    }
    assert forall|x: int| 8 + la <= x < 11 + la implies #[trigger] line[x] == ": <"@[x - 8
        - la] by {
        assert(line.subrange(8 + la, 11 + la)[x - 8 - la] == line[x]);
    }
    assert forall|x: int| 11 + la <= x < 11 + la + lns implies #[trigger] line[x] == ns[x - 11
        - la] by {
        assert(line.subrange(11 + la, 11 + la + lns)[x - 11 - la] == line[x]);
    }
    assert forall|x: int| 11 + la + lns <= x < n implies #[trigger] line[x] == "> ."@[x - 11 - la
        - lns] by {
        assert(line.subrange(11 + la + lns, n)[x - 11 - la - lns] == line[x]);
    }
    // token 1: the keyword
    lemma_skip_ws_exact(line, 0, 0);
    assert(line.subrange(0, 7) =~= at_prefix_word());
    assert(tok_at(line, 0) == Some((TokV::AtPrefix, 7int)));
    // token 2: the mnemonic with its colon
    lemma_skip_ws_exact(line, 7, 8);
    lemma_name_end_exact(line, 8, 8 + la);
    assert(line[8 + la] == ':');
    assert(!has_dash(line.subrange(8, 8 + la)));
    assert(line[9 + la] == ' ');
    assert(tok_at(line, 8) == Some((TokV::NameColon(alias), 9 + la)));
    // token 3: the bracketed namespace
    lemma_skip_ws_exact(line, 9 + la, 10 + la);
    assert(line[10 + la] == '<');
    assert forall|x: int| 11 + la <= x < 11 + la + lns implies (#[trigger] line[x]) != '>' by {
        assert(line[x] == ns[x - 11 - la]);
    }
    assert(line[11 + la + lns] == '>');
    lemma_close_angle_exact(line, 11 + la, 11 + la + lns);
    assert(line.subrange(11 + la, 11 + la + lns) == ns);
    assert(tok_at(line, 10 + la) == Some((TokV::Uri(ns), 12 + la + lns)));
    // token 4: the closing dot
    lemma_skip_ws_exact(line, 12 + la + lns, 13 + la + lns);
    assert(line[13 + la + lns] == '.');
    assert(tok_at(line, 13 + la + lns) == Some((TokV::Dot, n)));
    // the token sequence, back to front
    lemma_skip_ws_exact(line, n, n);
    assert(toks_from(line, n) == Some(Seq::<TokV>::empty()));
    assert(toks_from(line, 12 + la + lns) == Some(seq![TokV::Dot] + Seq::<TokV>::empty()));
    assert(toks_from(line, 9 + la) == Some(seq![TokV::Uri(ns)] + (seq![TokV::Dot] + Seq::<
        TokV,
    >::empty())));
    assert(toks_from(line, 7) == Some(seq![TokV::NameColon(alias)] + (seq![TokV::Uri(ns)] + (seq![
        TokV::Dot,
    ] + Seq::<TokV>::empty()))));
    assert(toks_from(line, 0) == Some(seq![TokV::AtPrefix] + (seq![TokV::NameColon(alias)] + (seq![
        TokV::Uri(ns),
    ] + (seq![TokV::Dot] + Seq::<TokV>::empty())))));
    let ts = seq![TokV::AtPrefix, TokV::NameColon(alias), TokV::Uri(ns), TokV::Dot];
    assert(seq![TokV::AtPrefix] + (seq![TokV::NameColon(alias)] + (seq![TokV::Uri(ns)] + (seq![
        TokV::Dot,
    ] + Seq::<TokV>::empty()))) =~= ts);
    assert(spec_tokenize(line) == Some(ts));
    assert(parse_toks(ts) == Some(ParsedLineV::Prefix(alias, ns)));
}


/// A rendered subject head line parses back to exactly its subject fragment.
#[verifier::rlimit(100)]
pub proof fn lemma_parse_subject_line(alias: Seq<char>, local: Seq<char>)
    requires
        mnemonic_ok(alias),
        plain_name(local),
    ensures
        spec_parse_line(subject_line_text(alias, local)) == Some(
            ParsedLineV::Subject(Some(alias), local),
        ),
{
    let line = subject_line_text(alias, local);
    let la = alias.len() as int;
    let ll = local.len() as int;
    let n = line.len() as int;
    assert(n == la + 1 + ll);
    assert(line.subrange(0, la) =~= alias);
    assert(line.subrange(la + 1, n) =~= local);
    assert forall|x: int| 0 <= x < la implies #[trigger] line[x] == alias[x] by {
        assert(line.subrange(0, la)[x] == line[x]);
    }
    assert(line[la] == ':');
    assert forall|x: int| la + 1 <= x < n implies #[trigger] line[x] == local[x - la - 1] by {
        assert(line.subrange(la + 1, n)[x - la - 1] == line[x]);
    }
    lemma_skip_ws_exact(line, 0, 0);
    lemma_name_end_exact(line, 0, la);
    assert(!has_dash(line.subrange(0, la)));
    lemma_name_end_exact(line, la + 1, n);
    assert(tok_at(line, 0) == Some((TokV::PrefixedName(alias, local), n)));
    lemma_skip_ws_exact(line, n, n);
    assert(toks_from(line, n) == Some(Seq::<TokV>::empty()));
    assert(toks_from(line, 0) == Some(seq![TokV::PrefixedName(alias, local)] + Seq::<
        TokV,
    >::empty()));
    let ts = seq![TokV::PrefixedName(alias, local)];
    assert(seq![TokV::PrefixedName(alias, local)] + Seq::<TokV>::empty() =~= ts);
    assert(spec_tokenize(line) == Some(ts));
    assert(parse_toks(ts) == Some(ParsedLineV::Subject(Some(alias), local)));
}

/// A rendered predicate/object line parses back to exactly its fragment:
/// the closing line of a block to a terminal pair, any other to a plain one.
#[verifier::rlimit(100)]
pub proof fn lemma_parse_pair_line(alias: Seq<char>, local: Seq<char>, o: Seq<char>, last: bool)
    requires
        mnemonic_ok(alias),
        plain_name(local),
        !has_dash(local),
        has_colon_slash(o) ==> bracket_safe(o),
        !has_colon_slash(o) ==> quote_scan_ok(o),
    ensures
        spec_parse_line(pair_line_text(alias, local, o, last)) == Some(
            if last {
                ParsedLineV::PredObjTerm(Some(alias), local, None, o)
            } else {
                ParsedLineV::PredObj(Some(alias), local, None, o, false)
            },
        ),
{
    reveal_strlit("    ");
    reveal_strlit(" .");
    reveal_strlit(" ;");
    let line = pair_line_text(alias, local, o, last);
    let la = alias.len() as int;
    let ll = local.len() as int;
    let lo = o.len() as int;
    let n = line.len() as int;
    let tail = if last {
        " ."@
    } else {
        " ;"@
    };
    assert(n == 10 + la + ll + lo);
    let ostart = 6 + la + ll;
    assert(line.subrange(0, 4) =~= "    "@);
    assert(line.subrange(4, 4 + la) =~= alias);
    assert(line.subrange(5 + la, 5 + la + ll) =~= local);
    assert(line.subrange(ostart, ostart + lo + 2) =~= render_obj_text(o));
    assert(line.subrange(ostart + 1, ostart + 1 + lo) =~= o);
    assert(line.subrange(n - 2, n) =~= tail);
    assert forall|x: int| 0 <= x < 4 implies #[trigger] line[x] == ' ' by {
        assert(line.subrange(0, 4)[x] == line[x]);
    }
    assert forall|x: int| 4 <= x < 4 + la implies #[trigger] line[x] == alias[x - 4] by {
        assert(line.subrange(4, 4 + la)[x - 4] == line[x]);
    }
    assert(line[4 + la] == ':');
    assert forall|x: int| 5 + la <= x < 5 + la + ll implies #[trigger] line[x] == local[x - 5
        - la] by {
        assert(line.subrange(5 + la, 5 + la + ll)[x - 5 - la] == line[x]);
    }
    assert(line[5 + la + ll] == ' ');
    assert forall|x: int| ostart + 1 <= x < ostart + 1 + lo implies #[trigger] line[x] == o[x
        - ostart - 1] by {
        assert(line.subrange(ostart + 1, ostart + 1 + lo)[x - ostart - 1] == line[x]);
    }
    assert(line[n - 2] == ' ' && (line[n - 1] == '.' || line[n - 1] == ';')) by {
        assert(line.subrange(n - 2, n)[0] == line[n - 2]);
        assert(line.subrange(n - 2, n)[1] == line[n - 1]);
    }
    // token 1: the prefixed predicate
    lemma_skip_ws_exact(line, 0, 4);
    lemma_name_end_exact(line, 4, 4 + la);
    assert(!has_dash(line.subrange(4, 4 + la)));
    lemma_name_end_exact(line, 5 + la, 5 + la + ll);
    assert(tok_at(line, 4) == Some((TokV::PrefixedName(alias, local), 5 + la + ll)));
    // token 2: the object, bracketed or quoted
    lemma_skip_ws_exact(line, 5 + la + ll, ostart);
    assert(line[ostart] == render_obj_text(o)[0]) by {
        assert(line.subrange(ostart, ostart + lo + 2)[0] == line[ostart]);
    }
    assert(line[ostart + 1 + lo] == render_obj_text(o)[lo + 1]) by {
        assert(line.subrange(ostart, ostart + lo + 2)[lo + 1] == line[ostart + 1 + lo]);
    }
    if has_colon_slash(o) {
        assert(line[ostart] == '<');
        assert(line[ostart + 1 + lo] == '>');
        assert forall|x: int| ostart + 1 <= x < ostart + 1 + lo implies (#[trigger] line[x])
            != '>' by {
            assert(line[x] == o[x - ostart - 1]);
        }
        lemma_close_angle_exact(line, ostart + 1, ostart + 1 + lo);
        assert(lo > 0);
        assert(tok_at(line, ostart) == Some((TokV::Uri(o), ostart + lo + 2)));
    } else {
        assert(line[ostart] == '"');
        assert(line[ostart + 1 + lo] == '"');
        let oq = o.push('"');
        assert forall|x: int| 0 <= x < oq.len() implies line[ostart + 1 + x] == #[trigger] oq[
            x
        ] by {
            if x < lo {
                assert(oq[x] == o[x]);
                assert(line[ostart + 1 + x] == o[x]);
            } else {
                assert(oq[x] == '"');
            }
        }
        lemma_close_quote_shift(line, ostart + 1, oq, 0);
        assert(close_quote(line, ostart + 1) == Some(ostart + 1 + lo));
        assert(line.subrange(ostart + 1, ostart + 1 + lo) == o);
        assert(tok_at(line, ostart) == Some((TokV::Literal(o), ostart + lo + 2)));
    }
    let obj_tok = if has_colon_slash(o) {
        TokV::Uri(o)
    } else {
        TokV::Literal(o)
    };
    // token 3: the terminator
    lemma_skip_ws_exact(line, ostart + lo + 2, n - 1);
    let term_tok = if last {
        TokV::Dot
    } else {
        TokV::Semi
    };
    assert(tok_at(line, n - 1) == Some((term_tok, n)));
    // the token sequence, back to front
    lemma_skip_ws_exact(line, n, n);
    assert(toks_from(line, n) == Some(Seq::<TokV>::empty()));
    assert(toks_from(line, ostart + lo + 2) == Some(seq![term_tok] + Seq::<TokV>::empty()));
    assert(toks_from(line, 5 + la + ll) == Some(seq![obj_tok] + (seq![term_tok] + Seq::<
        TokV,
    >::empty())));
    assert(toks_from(line, 0) == Some(seq![TokV::PrefixedName(alias, local)] + (seq![obj_tok] + (
    seq![term_tok] + Seq::<TokV>::empty()))));
    let ts = seq![TokV::PrefixedName(alias, local), obj_tok, term_tok];
    assert(seq![TokV::PrefixedName(alias, local)] + (seq![obj_tok] + (seq![term_tok] + Seq::<
        TokV,
    >::empty())) =~= ts);
    assert(spec_tokenize(line) == Some(ts));
    assert(ts.skip(1) =~= seq![obj_tok, term_tok]);
    assert(ts.skip(2) =~= seq![term_tok]);
    assert(parse_toks(ts) == Some(
        if last {
            ParsedLineV::PredObjTerm(Some(alias), local, None, o)
        } else {
            ParsedLineV::PredObj(Some(alias), local, None, o, false)
        },
    ));
}


/// An object value that survives the rendering policy: a bracketed one holds
/// no closing bracket, a quoted one scans back verbatim.
pub open spec fn obj_safe(o: Seq<char>) -> bool {
    if has_colon_slash(o) {
        bracket_safe(o)
    } else {
        quote_scan_ok(o)
    }
}

/// The prefix-declaration fragments of a whole alias table, in entry order.
pub open spec fn prefix_fragments(t: &PrefixAliases) -> Seq<ParsedLineV> {
    Seq::new(t.len_s() as nat, |i: int| ParsedLineV::Prefix(t.alias_at(i), t.ns_at(i)))
}

/// Replaying the prefix declarations of an alias table binds every alias to
/// its namespace, emits nothing, and touches nothing else.
proof fn lemma_prefix_replay(t: &PrefixAliases, p0: Map<Seq<char>, Seq<char>>, k: int)
    requires
        t.wf(),
        0 <= k <= t.len_s(),
    ensures
        ({
            let m = AsmV { state: StateV::SubjectLoading, prefixes: p0, current: None };
            match spec_run(m, prefix_fragments(t).skip(k)) {
                Ok(res) => {
                    &&& res.1 =~= Seq::<SubjV>::empty()
                    &&& res.0.state is SubjectLoading
                    &&& res.0.current == m.current
                    &&& forall|j: int|
                        k <= j < t.len_s() ==> res.0.prefixes.contains_key(#[trigger] t.alias_at(j))
                            && res.0.prefixes[t.alias_at(j)] == t.ns_at(j)
                    &&& forall|x: Seq<char>|
                        (forall|j: int| k <= j < t.len_s() ==> x != #[trigger] t.alias_at(j))
                            ==> ((#[trigger] res.0.prefixes.contains_key(x) <==> p0.contains_key(x))
                            && (p0.contains_key(x) ==> res.0.prefixes[x] == p0[x]))
                },
                Err(_) => false,
            }
        }),
    decreases t.len_s() - k,
{
    let pf = prefix_fragments(t);
    let m = AsmV { state: StateV::SubjectLoading, prefixes: p0, current: None };
    let fk = pf.skip(k);
    if k == t.len_s() {
        assert(fk.len() == 0);
    } else {
        assert(fk[0] == pf[k]);
        assert(pf[k] == ParsedLineV::Prefix(t.alias_at(k), t.ns_at(k)));
        match spec_step(m, fk[0]) {
            Ok(step1) => {
                assert(step1.1 is None);
                assert(step1.0 == AsmV {
                    state: StateV::SubjectLoading,
                    prefixes: p0.insert(t.alias_at(k), t.ns_at(k)),
                    current: m.current,
                });
                lemma_prefix_replay(t, p0.insert(t.alias_at(k), t.ns_at(k)), k + 1);
                assert(fk.skip(1) =~= pf.skip(k + 1));
                match spec_run(step1.0, fk.skip(1)) {
                    Ok(rest) => {
                        assert(Seq::<SubjV>::empty() + rest.1 =~= rest.1);
                        let p1 = p0.insert(t.alias_at(k), t.ns_at(k));
                        assert forall|j: int|
                            k <= j < t.len_s() implies rest.0.prefixes.contains_key(
                            #[trigger] t.alias_at(j),
                        ) && rest.0.prefixes[t.alias_at(j)] == t.ns_at(j) by {
                            if j == k {
                                assert forall|jj: int|
                                    k + 1 <= jj < t.len_s() implies t.alias_at(k)
                                    != #[trigger] t.alias_at(jj) by {}
                                assert(p1.contains_key(t.alias_at(k)));
                                assert(p1[t.alias_at(k)] == t.ns_at(k));
                                assert(rest.0.prefixes.contains_key(t.alias_at(k))
                                    <==> p1.contains_key(t.alias_at(k)));
                                assert(rest.0.prefixes[t.alias_at(k)] == p1[t.alias_at(k)]);
                            }
                        }
                        assert forall|x: Seq<char>|
                            (forall|j: int| k <= j < t.len_s() ==> x != #[trigger] t.alias_at(j))
                                implies ((#[trigger] rest.0.prefixes.contains_key(x)
                                <==> p0.contains_key(x)) && (p0.contains_key(x)
                                ==> rest.0.prefixes[x] == p0[x])) by {
                            assert(x != t.alias_at(k));
                            assert(forall|jj: int|
                                k + 1 <= jj < t.len_s() ==> x != #[trigger] t.alias_at(jj));
                            assert(rest.0.prefixes.contains_key(x) <==> p1.contains_key(x));
                            assert(p1.contains_key(x) <==> p0.contains_key(x));
                            if p0.contains_key(x) {
                                assert(p1[x] == p0[x]);
                                assert(rest.0.prefixes[x] == p1[x]);
                            }
                        }
                    },
                    Err(_) => {
                        assert(false);
                    },
                }
            },
            Err(_) => {
                assert(false);
            },
        }
    }
}

/// Every line of a rendered block parses back to its intended fragment.
proof fn lemma_block_lines_parse(s: &Subject, t: &PrefixAliases)
    requires
        s.wf(),
        t.wf(),
        s.num_pairs() > 0,
        block_renderable(s, t),
        (match spec_split(s.name_view()) {
            Some(nl) => plain_name(nl.1),
            None => false,
        }),
        forall|i: int|
            0 <= i < s.num_pairs() ==> (match spec_split(#[trigger] s.pred_view(i)) {
                Some(nl) => plain_name(nl.1) && !has_dash(nl.1),
                None => false,
            }),
        forall|k: int|
            0 <= k < subject_rows(s).len() ==> obj_safe((#[trigger] subject_rows(s)[k]).2),
    ensures
        forall|k: int|
            0 <= k < block_lines(s, t).len() ==> #[trigger] spec_parse_line(block_lines(s, t)[k])
                == Some(block_fragments(s, t)[k]),
{
    let flat = subject_rows(s);
    let lines = block_lines(s, t);
    let frags = block_fragments(s, t);
    lemma_rows_membership(s, s.num_pairs());
    assert forall|k: int| 0 <= k < lines.len() implies #[trigger] spec_parse_line(lines[k])
        == Some(frags[k]) by {
        if k == 0 {
            let nl = spec_split(s.name_view())->Some_0;
            t.lemma_alias_shape(nl.0);
            lemma_parse_subject_line(t.alias_of(nl.0), nl.1);
        } else {
            let q = k - 1;
            assert(flat.contains(flat[q]));
            assert(rows_of(s, s.num_pairs()).contains(flat[q]));
            let (i, a) = choose|i: int, a: int|
                0 <= i < s.num_pairs() && 0 <= a < s.objs_view(i).len() && flat[q] == (
                    s.name_view(),
                    s.pred_view(i),
                    s.objs_view(i)[a],
                );
            let pr = flat[q].1;
            assert(pr == s.pred_view(i));
            let nl = spec_split(pr)->Some_0;
            t.lemma_alias_shape(nl.0);
            assert(obj_safe(flat[q].2));
            lemma_parse_pair_line(t.alias_of(nl.0), nl.1, flat[q].2, q == flat.len() - 1);
            assert(lines[k] == pair_line_of(pr, flat[q].2, t, q == flat.len() - 1));
            assert(frags[k] == pair_fragment(pr, flat[q].2, t, q == flat.len() - 1));
        }
    }
}

/// The whole-text round trip: every rendered line of one subject's export --
/// the prefix declarations and the block -- parses back to its intended
/// fragment; replaying all those fragments through a fresh assembler emits
/// exactly one subject, with the same name and the same
/// predicate-to-object-set mapping as the one rendered; and it is emitted
/// only on the block's closing line -- the run over every line but the last
/// emits nothing.
pub proof fn lemma_round_trip_text(s: &Subject, t: &PrefixAliases)
    requires
        s.wf(),
        t.wf(),
        s.num_pairs() > 0,
        block_renderable(s, t),
        splittable(s.name_view()),
        forall|i: int| 0 <= i < s.num_pairs() ==> splittable(#[trigger] s.pred_view(i)),
        (match spec_split(s.name_view()) {
            Some(nl) => plain_name(nl.1),
            None => false,
        }),
        forall|i: int|
            0 <= i < s.num_pairs() ==> (match spec_split(#[trigger] s.pred_view(i)) {
                Some(nl) => plain_name(nl.1) && !has_dash(nl.1),
                None => false,
            }),
        forall|k: int|
            0 <= k < subject_rows(s).len() ==> obj_safe((#[trigger] subject_rows(s)[k]).2),
        forall|i: int| 0 <= i < t.len_s() ==> bracket_safe(#[trigger] t.ns_at(i)),
    ensures
        forall|i: int|
            0 <= i < t.len_s() ==> #[trigger] spec_parse_line(prefix_lines_of(t)[i]) == Some(
                prefix_fragments(t)[i],
            ),
        forall|k: int|
            0 <= k < block_lines(s, t).len() ==> #[trigger] spec_parse_line(block_lines(s, t)[k])
                == Some(block_fragments(s, t)[k]),
        ({
            let start = AsmV {
                state: StateV::SubjectLoading,
                prefixes: Map::<Seq<char>, Seq<char>>::empty(),
                current: None,
            };
            match spec_run(start, prefix_fragments(t) + block_fragments(s, t)) {
                Ok(res) => res.1.len() == 1 && res.1[0].name == s.name_view() && res.1[0].pairs
                    =~= s.pairs_map(),
                Err(_) => false,
            }
        }),
        ({
            let start = AsmV {
                state: StateV::SubjectLoading,
                prefixes: Map::<Seq<char>, Seq<char>>::empty(),
                current: None,
            };
            match spec_run(start, (prefix_fragments(t) + block_fragments(s, t)).drop_last()) {
                Ok(res) => res.1 =~= Seq::<SubjV>::empty(),
                Err(_) => false,
            }
        }),
{
    assert forall|i: int| 0 <= i < t.len_s() implies #[trigger] spec_parse_line(
        prefix_lines_of(t)[i],
    ) == Some(prefix_fragments(t)[i]) by {
        assert(mnemonic_ok(t.alias_at(i)));
        lemma_parse_prefix_line(t.alias_at(i), t.ns_at(i));
    }
    lemma_block_lines_parse(s, t);
    let start = AsmV {
        state: StateV::SubjectLoading,
        prefixes: Map::<Seq<char>, Seq<char>>::empty(),
        current: None,
    };
    lemma_prefix_replay(t, Map::<Seq<char>, Seq<char>>::empty(), 0);
    assert(prefix_fragments(t).skip(0) =~= prefix_fragments(t));
    assert(prefix_fragments(t).skip(0) == prefix_fragments(t));
    match spec_run(start, prefix_fragments(t)) {
        Ok(mid) => {
            assert(reverses(mid.0.prefixes, t)) by {
                assert forall|ns: Seq<char>| #[trigger] t.has_ns(ns) implies
                    mid.0.prefixes.contains_key(t.alias_of(ns)) && mid.0.prefixes[t.alias_of(ns)]
                        == ns by {
                    let i = choose|i: int| 0 <= i < t.len_s() && t.ns_at(i) == ns;
                    t.lemma_at(i);
                }
            }
            let m1 = AsmV {
                state: StateV::SubjectLoading,
                prefixes: mid.0.prefixes,
                current: None,
            };
            assert(mid.0 == m1);
            lemma_round_trip(s, t, mid.0.prefixes);
            lemma_spec_run_concat(start, prefix_fragments(t), block_fragments(s, t));
            match spec_run(mid.0, block_fragments(s, t)) {
                Ok(rest) => {
                    assert(mid.1 + rest.1 =~= rest.1);
                },
                Err(_) => {
                    assert(false);
                },
            }
            // every line before the closing one emits nothing
            let pp = mid.0.prefixes;
            let bf = block_fragments(s, t);
            let flat = subject_rows(s);
            let pair_frags = Seq::new(
                flat.len(),
                |q: int| pair_fragment(flat[q].1, flat[q].2, t, q == flat.len() - 1),
            );
            assert(s.objs_view(0).len() > 0);
            assert(rows_of(s, 1) == rows_of(s, 0) + row_triples(s, 0));
            lemma_rows_stable(s, 1, s.num_pairs());
            assert(flat.len() > 0);
            let partial = bf.drop_last();
            assert(partial =~= seq![subject_fragment(s, t)] + pair_frags.subrange(
                0,
                flat.len() - 1,
            ));
            assert(partial[0] == subject_fragment(s, t));
            let nl = spec_split(s.name_view())->Some_0;
            assert(t.has_ns(nl.0));
            let alias = t.alias_of(nl.0);
            assert(pp.contains_key(alias) && pp[alias] == nl.0);
            assert(spec_resolve(Some(alias), nl.1, pp) == Some(spec_join(nl.0, nl.1)));
            assert(spec_join(nl.0, nl.1) == s.name_view());
            match spec_step(mid.0, partial[0]) {
                Ok(step1) => {
                    assert(step1.1 is None);
                    assert(fold_pairs(flat, 0) =~= Map::<Seq<char>, Set<Seq<char>>>::empty());
                    assert(step1.0 == AsmV {
                        state: StateV::PredicateLoading,
                        prefixes: pp,
                        current: Some(
                            SubjV { name: s.name_view(), pairs: fold_pairs(flat, 0) },
                        ),
                    });
                    lemma_run_pairs_partial(s, t, pp, 0, flat.len() - 1);
                    assert(partial.skip(1) =~= pair_frags.subrange(0, flat.len() - 1));
                    assert(partial.skip(1) == pair_frags.subrange(0, flat.len() - 1));
                    match spec_run(step1.0, partial.skip(1)) {
                        Ok(tail) => {
                            assert(tail.1 =~= Seq::<SubjV>::empty());
                            match spec_run(mid.0, partial) {
                                Ok(opened) => {
                                    assert(opened.1 =~= Seq::<SubjV>::empty());
                                },
                                Err(_) => {
                                    assert(false);
                                },
                            }
                        },
                        Err(_) => {
                            assert(false);
                        },
                    }
                },
                Err(_) => {
                    assert(false);
                },
            }
            lemma_spec_run_concat(start, prefix_fragments(t), partial);
            assert((prefix_fragments(t) + bf).drop_last() =~= prefix_fragments(t) + partial);
            assert((prefix_fragments(t) + bf).drop_last() == prefix_fragments(t) + partial);
            match spec_run(start, prefix_fragments(t) + partial) {
                Ok(res2) => {
                    assert(res2.1 =~= Seq::<SubjV>::empty());
                },
                Err(_) => {
                    assert(false);
                },
            }
        },
        Err(_) => {
            assert(false);
        },
    }
}

} // verus!





