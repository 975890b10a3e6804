//! The name resolver: pure mapping from (optional prefix, local name, prefix
//! table) to an absolute identifier, and the inverse namespace split used on
//! export.  Import and export use the identical split rule, which is what
//! makes a serialized subject re-parse to the same identifiers.

use crate::data::Pre;
use crate::data::RdfName;
use crate::data::TriplesError;
use crate::data::str_to_string;
use vstd::prelude::*;

verus! {

/// `ns` with every trailing slash removed.
pub open spec fn strip_slashes(ns: Seq<char>) -> Seq<char>
    decreases ns.len(),
{
    if ns.len() > 0 && ns.last() == '/' {
        strip_slashes(ns.drop_last())
    } else {
        ns
    }
}

/// Join a namespace and a local name: a namespace ending in `#` concatenates
/// directly; any other namespace is stripped of trailing slashes and joined
/// with a single `/`.
pub open spec fn spec_join(ns: Seq<char>, local: Seq<char>) -> Seq<char> {
    if ns.len() > 0 && ns.last() == '#' {
        ns + local
    } else {
        strip_slashes(ns) + seq!['/'] + local
    }
}

/// Resolve an optionally prefixed name against a prefix table: an absent
/// prefix returns the local name unchanged; a bound prefix joins its
/// namespace with the local name; an unbound prefix resolves to nothing.
pub open spec fn spec_resolve(
    prefix: Option<Seq<char>>,
    local: Seq<char>,
    table: Map<Seq<char>, Seq<char>>,
) -> Option<Seq<char>> {
    match prefix {
        None => Some(local),
        Some(p) => if table.contains_key(p) {
            Some(spec_join(table[p], local))
        } else {
            None
        },
    }
}

/// The position of the last occurrence of `c`, if any.
pub open spec fn rfind(s: Seq<char>, c: char) -> Option<int>
    decreases s.len(),
{
    if s.len() == 0 {
        None
    } else if s.last() == c {
        Some(s.len() - 1)
    } else {
        rfind(s.drop_last(), c)
    }
}

/// `rfind` returns the last occurrence and nothing when there is none.
pub proof fn lemma_rfind(s: Seq<char>, c: char)
    ensures
        match rfind(s, c) {
            Some(j) => 0 <= j < s.len() && s[j] == c && forall|a: int| j < a < s.len() ==> s[a] != c,
            None => forall|a: int| 0 <= a < s.len() ==> s[a] != c,
        },
    decreases s.len(),
{
    if s.len() > 0 && s.last() != c {
        lemma_rfind(s.drop_last(), c);
        let t = s.drop_last();
        match rfind(t, c) {
            Some(j) => {
                assert(s[j] == t[j]);
                assert forall|a: int| j < a < s.len() implies s[a] != c by {
                    if a < s.len() - 1 {
                        assert(s[a] == t[a]);
                    }
                }
            },
            None => {
                assert forall|a: int| 0 <= a < s.len() implies s[a] != c by {
                    if a < s.len() - 1 {
                        assert(s[a] == t[a]);
                    }
                }
            },
        }
    }
}

/// Split an identifier into namespace (separator included) and local name:
/// the last `#` wins when nothing after it holds a `/`; otherwise the last
/// `/`; otherwise the identifier cannot be split.
pub open spec fn spec_split(s: Seq<char>) -> Option<(Seq<char>, Seq<char>)> {
    match rfind(s, '#') {
        Some(j) => if (match rfind(s, '/') {
            Some(k) => k < j,
            None => true,
        }) {
            Some((s.take(j + 1), s.skip(j + 1)))
        } else {
            match rfind(s, '/') {
                Some(k) => Some((s.take(k + 1), s.skip(k + 1))),
                None => None,
            }
        },
        None => match rfind(s, '/') {
            Some(k) => Some((s.take(k + 1), s.skip(k + 1))),
            None => None,
        },
    }
}

/// An identifier whose split namespace and local name rejoin to the same
/// identifier.  Every identifier with a single separator before its local
/// name has this shape; one whose namespace ends in a doubled slash does not.
pub open spec fn splittable(s: Seq<char>) -> bool {
    match spec_split(s) {
        Some(nl) => spec_join(nl.0, nl.1) == s,
        None => false,
    }
}

/// Splitting at a `#`, or at a single (not doubled) `/`, then rejoining gives
/// back the identifier unchanged.
pub proof fn lemma_split_then_join(s: Seq<char>)
    requires
        spec_split(s) is Some,
        (match spec_split(s) {
            Some(nl) => nl.0.len() > 0 && (nl.0.last() == '#' || nl.0.len() < 2 || nl.0[nl.0.len()
                - 2] != '/'),
            None => false,
        }),
    ensures
        splittable(s),
{
    let (ns, l) = spec_split(s)->Some_0;
    lemma_rfind(s, '#');
    lemma_rfind(s, '/');
    if ns.last() == '#' {
        assert(ns + l =~= s);
    } else {
        let k = ns.len() - 1;
        assert(s[k] == '/');
        if ns.len() >= 2 {
            assert(ns[ns.len() - 2] != '/');
        }
        assert(ns.drop_last() =~= s.take(k));
        assert(strip_slashes(ns) == strip_slashes(s.take(k)));
        assert(strip_slashes(s.take(k)) == s.take(k)) by {
            if s.take(k).len() > 0 {
                assert(s.take(k).last() == ns[ns.len() - 2]);
            }
        }
        assert(s.take(k) + seq!['/'] + s.skip(k + 1) =~= s);
    }
}

/// A binding table from prefix mnemonics to namespace identifiers, with
/// unique mnemonics, kept in declaration order.
pub struct PrefixTable {
    entries: Vec<(Pre, RdfName)>,
}

impl PrefixTable {
    /// How many bindings the table holds.
    pub closed spec fn len_s(&self) -> int {
        self.entries@.len() as int
    }

    /// The mnemonic of binding `i`.
    pub closed spec fn key_at(&self, i: int) -> Seq<char> {
        self.entries@[i].0@
    }

    /// The namespace of binding `i`.
    pub closed spec fn val_at(&self, i: int) -> Seq<char> {
        self.entries@[i].1@
    }

    /// Whether a mnemonic is bound.
    pub open spec fn has_key(&self, k: Seq<char>) -> bool {
        exists|i: int| 0 <= i < self.len_s() && self.key_at(i) == k
    }

    /// The namespace bound to mnemonic `k`.
    pub open spec fn val_of(&self, k: Seq<char>) -> Seq<char> {
        self.val_at(choose|i: int| 0 <= i < self.len_s() && self.key_at(i) == k)
    }

    /// The mapping the table denotes.
    pub open spec fn map_view(&self) -> Map<Seq<char>, Seq<char>> {
        Map::new(|k: Seq<char>| self.has_key(k), |k: Seq<char>| self.val_of(k))
    }

    /// Structural invariant: mnemonics are unique.
    pub open spec fn wf(&self) -> bool {
        forall|i: int, j: int| 0 <= i < j < self.len_s() ==> self.key_at(i) != self.key_at(j)
    }

    /// With unique mnemonics, the mapping at binding `i`'s mnemonic is that
    /// binding's namespace.
    pub proof fn lemma_at(&self, i: int)
        requires
            self.wf(),
            0 <= i < self.len_s(),
        ensures
            self.has_key(self.key_at(i)),
            self.map_view()[self.key_at(i)] == self.val_at(i),
    {
        let k = self.key_at(i);
        let w = choose|w: int| 0 <= w < self.len_s() && self.key_at(w) == k;
        assert(w == i);
    }

    pub fn new() -> (r: Self)
        ensures
            r.wf(),
            r.len_s() == 0,
            r.map_view() =~= Map::<Seq<char>, Seq<char>>::empty(),
    {
        PrefixTable { entries: Vec::new() }
    }

    /// The row index binding `p`, if any.
    fn find_key(&self, p: &Pre) -> (r: Option<usize>)
        ensures
            match r {
                Some(i) => 0 <= i < self.len_s() && self.key_at(i as int) == p@,
                None => !self.has_key(p@),
            },
    {
        let n = self.entries.len();
        for i in 0..n
            invariant
                n == self.len_s(),
                forall|j: int| 0 <= j < i ==> self.key_at(j) != p@,
        {
            if self.entries[i].0 == *p {
                return Some(i);
            }
        }
        None
    }

    /// The namespace bound to `p`, if any.
    pub fn lookup(&self, p: &Pre) -> (r: Option<&RdfName>)
        requires
            self.wf(),
        ensures
            match r {
                Some(u) => self.map_view().contains_key(p@) && u@ == self.map_view()[p@],
                None => !self.map_view().contains_key(p@),
            },
    {
        match self.find_key(p) {
            Some(i) => {
                proof {
                    self.lemma_at(i as int);
                }
                Some(&self.entries[i].1)
            },
            None => None,
        }
    }

    /// Bind `p` to `u`; a rebinding replaces the namespace.
    pub fn bind(&mut self, p: Pre, u: RdfName)
        requires
            old(self).wf(),
        ensures
            final(self).wf(),
            final(self).map_view() == old(self).map_view().insert(p@, u@),
    {
        let ghost old_self = *self;
        let ghost k = p@;
        let found = self.find_key(&p);
        match found {
            Some(i) => {
                self.entries[i].1 = u;
                proof {
                    let io = i as int;
                    assert forall|a: int| 0 <= a < self.len_s() implies #[trigger] self.key_at(a)
                        == old_self.key_at(a) by {
                        if a != io {
                            assert(self.entries@[a] == old_self.entries@[a]);
                        }
                    }
                    assert forall|a: int| 0 <= a < self.len_s() && a != io implies #[trigger] self.val_at(
                        a,
                    ) == old_self.val_at(a) by {
                        assert(self.entries@[a] == old_self.entries@[a]);
                    }
                    assert(self.wf());
                    assert forall|kk: Seq<char>| self.has_key(kk) <==> old_self.has_key(
                        kk,
                    ) by {
                        if self.has_key(kk) {
                            let a = choose|a: int|
                                0 <= a < self.len_s() && self.key_at(a) == kk;
                            assert(old_self.key_at(a) == kk);
                        }
                        if old_self.has_key(kk) {
                            let a = choose|a: int|
                                0 <= a < old_self.len_s() && old_self.key_at(a) == kk;
                            assert(self.key_at(a) == kk);
                        }
                    }
                    self.lemma_at(io);
                    assert forall|kk: Seq<char>| self.has_key(kk) && kk != k implies self.map_view()[
                        kk
                    ] == old_self.map_view()[kk] by {
                        let a = choose|a: int| 0 <= a < self.len_s() && self.key_at(a) == kk;
                        assert(a != io);
                        self.lemma_at(a);
                        old_self.lemma_at(a);
                    }
                    old_self.lemma_at(io);
                    assert(self.map_view() =~= old_self.map_view().insert(k, u@));
                }
            },
            None => {
                self.entries.push((p, u));
                proof {
                    let n = old_self.len_s();
                    assert forall|a: int| 0 <= a < n implies #[trigger] self.key_at(a)
                        == old_self.key_at(a) && #[trigger] self.val_at(a) == old_self.val_at(
                        a,
                    ) by {
                        assert(self.entries@[a] == old_self.entries@[a]);
                    }
                    assert(self.key_at(n) == k);
                    assert forall|a: int, b: int| 0 <= a < b < self.len_s() implies self.key_at(a)
                        != self.key_at(b) by {
                        if b == n {
                            assert(old_self.key_at(a) != k);
                        } else {
                            assert(old_self.key_at(a) != old_self.key_at(b));
                        }
                    }
                    assert(self.wf());
                    assert forall|kk: Seq<char>| self.has_key(kk) implies old_self.has_key(kk) || kk
                        == k by {
                        let a = choose|a: int| 0 <= a < self.len_s() && self.key_at(a) == kk;
                        if a < n {
                            assert(old_self.key_at(a) == kk);
                        }
                    }
                    assert forall|kk: Seq<char>| old_self.has_key(kk) implies self.has_key(kk) by {
                        let a = choose|a: int| 0 <= a < n && old_self.key_at(a) == kk;
                        assert(self.key_at(a) == kk);
                    }
                    self.lemma_at(n);
                    assert forall|kk: Seq<char>| self.has_key(kk) && kk != k implies self.map_view()[
                        kk
                    ] == old_self.map_view()[kk] by {
                        let a = choose|a: int| 0 <= a < self.len_s() && self.key_at(a) == kk;
                        assert(a < n);
                        self.lemma_at(a);
                        old_self.lemma_at(a);
                    }
                    assert(self.map_view() =~= old_self.map_view().insert(k, u@));
                }
            },
        }
    }
}

/// Strip the trailing slashes of `ns` and append `/` and `local`, or append
/// `local` directly when `ns` ends in `#`.
fn join_ns(ns: &str, local: &str) -> (r: String)
    ensures
        r@ == spec_join(ns@, local@),
{
    let n = ns.unicode_len();
    if n > 0 && ns.get_char(n - 1) == '#' {
        let mut r = str_to_string(ns);
        r.append(local);
        r
    } else {
        let mut e = n;
        proof {
            assert(ns@.take(n as int) =~= ns@);
        }
        while e > 0 && ns.get_char(e - 1) == '/'
            invariant
                0 <= e <= n,
                n == ns@.len(),
                strip_slashes(ns@) == strip_slashes(ns@.take(e as int)),
            decreases e,
        {
            proof {
                assert(ns@.take(e as int).last() == '/');
                assert(ns@.take(e as int).drop_last() =~= ns@.take(e as int - 1));
            }
            e = e - 1;
        }
        proof {
            if e > 0 {
                assert(ns@.take(e as int).last() != '/');
            }
            assert(strip_slashes(ns@.take(e as int)) == ns@.take(e as int));
        }
        let mut r = str_to_string(ns.substring_char(0, e));
        r.append("/");
        r.append(local);
        proof {
            reveal_strlit("/");
            assert("/"@ =~= seq!['/']);
            assert(ns@.subrange(0, e as int) =~= ns@.take(e as int));
        }
        r
    }
}

/// Resolve an optionally prefixed name against the table: the executable
/// counterpart of `spec_resolve`, reporting the unresolvable mnemonic.
pub fn resolve_name(prefix: Option<&Pre>, local: &str, table: &PrefixTable) -> (r: Result<
    String,
    TriplesError,
>)
    requires
        table.wf(),
    ensures
        match r {
            Ok(s) => spec_resolve(
                match prefix {
                    Some(p) => Some(p@),
                    None => None,
                },
                local@,
                table.map_view(),
            ) == Some(s@),
            Err(e) => spec_resolve(
                match prefix {
                    Some(p) => Some(p@),
                    None => None,
                },
                local@,
                table.map_view(),
            ) is None && (match e {
                TriplesError::UnresolvableURIPrefix { prefix_name, name } => (match prefix {
                    Some(p) => prefix_name@ == p@,
                    None => false,
                }) && name@ == local@,
                _ => false,
            }),
        },
{
    match prefix {
        None => Ok(str_to_string(local)),
        Some(p) => match table.lookup(p) {
            Some(u) => Ok(join_ns(u.as_str(), local)),
            None => Err(
                TriplesError::UnresolvableURIPrefix {
                    prefix_name: str_to_string(p.as_str()),
                    name: str_to_string(local),
                },
            ),
        },
    }
}

/// Split an identifier into namespace and local name, the executable
/// counterpart of `spec_split`; an unsplittable identifier is invalid.
pub fn extract_namespace_and_local_name(name: &str) -> (r: Result<(String, String), TriplesError>)
    ensures
        match r {
            Ok(nl) => spec_split(name@) == Some((nl.0@, nl.1@)),
            Err(e) => spec_split(name@) is None && (match e {
                TriplesError::InvalidIRI { uri } => uri@ == name@,
                _ => false,
            }),
        },
{
    let hash = rfind_exec(name, '#');
    let slash = rfind_exec(name, '/');
    let split_at: Option<usize> = match (hash, slash) {
        (Some(j), Some(k)) => if k < j {
            Some(j)
        } else {
            Some(k)
        },
        (Some(j), None) => Some(j),
        (None, Some(k)) => Some(k),
        (None, None) => None,
    };
    match split_at {
        Some(j) => {
            let n = name.unicode_len();
            let ns = str_to_string(name.substring_char(0, j + 1));
            let local = str_to_string(name.substring_char(j + 1, n));
            proof {
                assert(name@.subrange(0, j as int + 1) =~= name@.take(j as int + 1));
                assert(name@.subrange(j as int + 1, n as int) =~= name@.skip(j as int + 1));
            }
            Ok((ns, local))
        },
        None => Err(TriplesError::InvalidIRI { uri: str_to_string(name) }),
    }
}

/// The position of the last occurrence of `c` in `s`, if any.
fn rfind_exec(s: &str, c: char) -> (r: Option<usize>)
    ensures
        match r {
            Some(j) => rfind(s@, c) == Some(j as int) && j < s@.len(),
            None => rfind(s@, c) is None,
        },
{
    let n = s.unicode_len();
    let mut i = n;
    proof {
        assert(s@.take(n as int) =~= s@);
    }
    while i > 0
        invariant
            0 <= i <= n,
            n == s@.len(),
            rfind(s@, c) == rfind(s@.take(i as int), c),
        decreases i,
    {
        if s.get_char(i - 1) == c {
            proof {
                assert(s@.take(i as int).last() == c);
            }
            return Some(i - 1);
        }
        proof {
            assert(s@.take(i as int).last() != c);
            assert(s@.take(i as int).drop_last() =~= s@.take(i as int - 1));
        }
        i = i - 1;
    }
    None
}

} // verus!
