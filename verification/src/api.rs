//! A compact, validated record interface: an identifier type that admits
//! only absolute `http`/`https`/`ftp` identifiers, and a subject record
//! holding at most one object per predicate (the newest object wins).

use vstd::prelude::*;

verus! {

/// The whitespace characters the identifier validation refuses anywhere in
/// an identifier, and as the first character after the scheme.
pub open spec fn is_space_char(c: char) -> bool {
    c == ' ' || c == '\t' || c == '\n' || c == '\u{B}' || c == '\u{C}' || c == '\r' || c
        == '\u{85}' || c == '\u{A0}' || c == '\u{1680}' || ('\u{2000}' <= c && c <= '\u{200A}') || c
        == '\u{2028}' || c == '\u{2029}' || c == '\u{202F}' || c == '\u{205F}' || c == '\u{3000}'
}

/// Whether `s` begins with `p`.
pub open spec fn starts_with(s: Seq<char>, p: Seq<char>) -> bool {
    s.len() >= p.len() && s.take(p.len() as int) == p
}

/// The part of a valid identifier after its scheme: at least two characters;
/// the first is no whitespace and none of `/ $ . ? #`; the second is no line
/// break; nothing after them is whitespace.
pub open spec fn iri_tail_ok(r: Seq<char>) -> bool {
    &&& r.len() >= 2
    &&& !is_space_char(r[0])
    &&& r[0] != '/' && r[0] != '$' && r[0] != '.' && r[0] != '?' && r[0] != '#'
    &&& r[1] != '\n'
    &&& forall|i: int| 2 <= i < r.len() ==> !is_space_char(#[trigger] r[i])
}

/// A syntactically valid absolute identifier: an `http`, `https` or `ftp`
/// scheme followed by a well-shaped remainder.
pub open spec fn is_valid_iri(s: Seq<char>) -> bool {
    ||| (starts_with(s, "http://"@) && iri_tail_ok(s.skip(7)))
    ||| (starts_with(s, "https://"@) && iri_tail_ok(s.skip(8)))
    ||| (starts_with(s, "ftp://"@) && iri_tail_ok(s.skip(6)))
}

/// Whether `s` begins with `p`, scanning the characters.
fn starts_with_exec(s: &str, p: &str) -> (r: bool)
    ensures
        r == starts_with(s@, p@),
{
    let n = s.unicode_len();
    let m = p.unicode_len();
    if m > n {
        return false;
    }
    let mut j: usize = 0;
    while j < m
        invariant
            0 <= j <= m,
            m == p@.len(),
            n == s@.len(),
            m <= n,
            forall|a: int| 0 <= a < j ==> s@[a] == p@[a],
        decreases m - j,
    {
        if s.get_char(j) != p.get_char(j) {
            proof {
                assert(s@.take(p@.len() as int)[j as int] != p@[j as int]);
            }
            return false;
        }
        j = j + 1;
    }
    proof {
        assert(s@.take(p@.len() as int) =~= p@);
    }
    true
}

/// Whether `c` is one of the refused whitespace characters.
fn is_space_char_exec(c: char) -> (r: bool)
    ensures
        r == is_space_char(c),
{
    c == ' ' || c == '\t' || c == '\n' || c == '\u{B}' || c == '\u{C}' || c == '\r' || c
        == '\u{85}' || c == '\u{A0}' || c == '\u{1680}' || ('\u{2000}' <= c && c <= '\u{200A}') || c
        == '\u{2028}' || c == '\u{2029}' || c == '\u{202F}' || c == '\u{205F}' || c == '\u{3000}'
}

/// Whether the remainder after the scheme is well shaped.
fn iri_tail_ok_exec(s: &str, from: usize) -> (r: bool)
    requires
        from <= s@.len(),
    ensures
        r == iri_tail_ok(s@.skip(from as int)),
{
    let n = s.unicode_len();
    if n - from < 2 {
        return false;
    }
    let c0 = s.get_char(from);
    proof {
        assert(s@.skip(from as int)[0] == s@[from as int]);
    }
    if is_space_char_exec(c0) || c0 == '/' || c0 == '$' || c0 == '.' || c0 == '?' || c0 == '#' {
        return false;
    }
    let c1 = s.get_char(from + 1);
    proof {
        assert(s@.skip(from as int)[1] == s@[from as int + 1]);
    }
    if c1 == '\n' {
        return false;
    }
    let mut i = from + 2;
    while i < n
        invariant
            from + 2 <= i <= n,
            n == s@.len(),
            forall|a: int| from + 2 <= a < i ==> !is_space_char(#[trigger] s@[a]),
        decreases n - i,
    {
        if is_space_char_exec(s.get_char(i)) {
            proof {
                assert(is_space_char(s@.skip(from as int)[i - from]));
            }
            return false;
        }
        i = i + 1;
    }
    proof {
        assert forall|a: int| 2 <= a < s@.skip(from as int).len() implies !is_space_char(
            #[trigger] s@.skip(from as int)[a],
        ) by {
            assert(s@.skip(from as int)[a] == s@[from + a]);
        }
    }
    true
}

/// An absolute resource identifier, validated on construction.
#[derive(Debug, Clone)]
pub struct RdfName(String);

impl View for RdfName {
    type V = Seq<char>;

    closed spec fn view(&self) -> Seq<char> {
        self.0@
    }
}

impl RdfName {
    /// Accept the text only when it is a syntactically valid identifier.
    pub fn new(name: String) -> (r: Option<Self>)
        ensures
            match r {
                Some(n) => is_valid_iri(name@) && n@ == name@,
                None => !is_valid_iri(name@),
            },
    {
        if Self::is_valid(name.as_str()) {
            Some(RdfName(name))
        } else {
            None
        }
    }

    /// Whether the text has the shape of an absolute identifier.
    fn is_valid(name: &str) -> (r: bool)
        ensures
            r == is_valid_iri(name@),
    {
        proof {
            reveal_strlit("http://");
            reveal_strlit("https://");
            reveal_strlit("ftp://");
        }
        if starts_with_exec(name, "http://") {
            proof {
                assert("http://"@.len() == 7);
                if starts_with(name@, "https://"@) {
                    assert(name@.take(7)[4] == "http://"@[4]);
                    assert(name@.take(8)[4] == "https://"@[4]);
                    assert(false);
                }
                if starts_with(name@, "ftp://"@) {
                    assert(name@.take(7)[0] == "http://"@[0]);
                    assert(name@.take(6)[0] == "ftp://"@[0]);
                    assert(false);
                }
            }
            iri_tail_ok_exec(name, 7)
        } else if starts_with_exec(name, "https://") {
            proof {
                assert("https://"@.len() == 8);
                if starts_with(name@, "ftp://"@) {
                    assert(name@.take(8)[0] == "https://"@[0]);
                    assert(name@.take(6)[0] == "ftp://"@[0]);
                    assert(false);
                }
            }
            iri_tail_ok_exec(name, 8)
        } else if starts_with_exec(name, "ftp://") {
            proof {
                assert("ftp://"@.len() == 6);
            }
            iri_tail_ok_exec(name, 6)
        } else {
            false
        }
    }

    /// The identifier text.
    pub fn as_str(&self) -> (r: &str)
        ensures
            r@ == self@,
    {
        self.0.as_str()
    }
}

impl PartialEq for RdfName {
    fn eq(&self, other: &RdfName) -> (r: bool) {
        self.0 == other.0
    }
}

impl vstd::std_specs::cmp::PartialEqSpecImpl for RdfName {
    open spec fn obeys_eq_spec() -> bool {
        true
    }

    open spec fn eq_spec(&self, other: &RdfName) -> bool {
        self@ == other@
    }
}

/// A single subject with at most one object per predicate; adding a pair for
/// an existing predicate replaces its object.
#[derive(Debug)]
pub struct Subject {
    subject: RdfName,
    predicates_objects: Vec<(RdfName, String)>,
}

impl Subject {
    /// The subject identifier.
    pub closed spec fn name_view(&self) -> Seq<char> {
        self.subject@
    }

    /// How many predicates the subject carries.
    pub closed spec fn len_s(&self) -> int {
        self.predicates_objects@.len() as int
    }

    /// The predicate of entry `i`.
    pub closed spec fn pred_at(&self, i: int) -> Seq<char> {
        self.predicates_objects@[i].0@
    }

    /// The object of entry `i`.
    pub closed spec fn obj_at(&self, i: int) -> Seq<char> {
        self.predicates_objects@[i].1@
    }

    /// Whether a predicate is present.
    pub open spec fn has_pred(&self, p: Seq<char>) -> bool {
        exists|i: int| 0 <= i < self.len_s() && self.pred_at(i) == p
    }

    /// The object stored under predicate `p`.
    pub open spec fn obj_of(&self, p: Seq<char>) -> Seq<char> {
        self.obj_at(choose|i: int| 0 <= i < self.len_s() && self.pred_at(i) == p)
    }

    /// The predicate-to-object mapping the record denotes.
    pub open spec fn pairs_map(&self) -> Map<Seq<char>, Seq<char>> {
        Map::new(|p: Seq<char>| self.has_pred(p), |p: Seq<char>| self.obj_of(p))
    }

    /// Structural invariant: predicates are unique.
    pub open spec fn wf(&self) -> bool {
        forall|i: int, j: int| 0 <= i < j < self.len_s() ==> self.pred_at(i) != self.pred_at(j)
    }

    /// With unique predicates, the mapping at entry `i`'s predicate is that
    /// entry's object.
    pub proof fn lemma_at(&self, i: int)
        requires
            self.wf(),
            0 <= i < self.len_s(),
        ensures
            self.has_pred(self.pred_at(i)),
            self.pairs_map()[self.pred_at(i)] == self.obj_at(i),
    {
        let w = choose|w: int| 0 <= w < self.len_s() && self.pred_at(w) == self.pred_at(i);
        assert(w == i);
    }

    pub fn new(subject: RdfName) -> (r: Self)
        ensures
            r.wf(),
            r.name_view() == subject@,
            r.len_s() == 0,
            r.pairs_map() =~= Map::<Seq<char>, Seq<char>>::empty(),
    {
        Subject { subject, predicates_objects: Vec::new() }
    }

    pub fn name(&self) -> (r: &RdfName)
        ensures
            r@ == self.name_view(),
    {
        &self.subject
    }

    /// The entry index of predicate `p`, if any.
    fn find_pred(&self, predicate: &RdfName) -> (r: Option<usize>)
        ensures
            match r {
                Some(i) => 0 <= i < self.len_s() && self.pred_at(i as int) == predicate@,
                None => !self.has_pred(predicate@),
            },
    {
        let n = self.predicates_objects.len();
        for i in 0..n
            invariant
                n == self.len_s(),
                forall|j: int| 0 <= j < i ==> self.pred_at(j) != predicate@,
        {
            if self.predicates_objects[i].0 == *predicate {
                return Some(i);
            }
        }
        None
    }

    /// Add or update the predicate/object pair for the subject.
    pub fn add(&mut self, predicate: RdfName, object: String)
        requires
            old(self).wf(),
        ensures
            final(self).wf(),
            final(self).name_view() == old(self).name_view(),
            final(self).pairs_map() == old(self).pairs_map().insert(predicate@, object@),
    {
        let ghost old_self = *self;
        let ghost k = predicate@;
        let ghost v = object@;
        let found = self.find_pred(&predicate);
        match found {
            Some(i) => {
                self.predicates_objects[i].1 = object;
                proof {
                    let io = i as int;
                    assert forall|a: int| 0 <= a < self.len_s() implies #[trigger] self.pred_at(a)
                        == old_self.pred_at(a) by {
                        if a != io {
                            assert(self.predicates_objects@[a] == old_self.predicates_objects@[a]);
                        }
                    }
                    assert forall|a: int|
                        0 <= a < self.len_s() && a != io implies #[trigger] self.obj_at(a)
                        == old_self.obj_at(a) by {
                        assert(self.predicates_objects@[a] == old_self.predicates_objects@[a]);
                    }
                    assert(self.wf());
                    assert forall|p: Seq<char>| self.has_pred(p) <==> old_self.has_pred(p) by {
                        if self.has_pred(p) {
                            let a = choose|a: int| 0 <= a < self.len_s() && self.pred_at(a) == p;
                            assert(old_self.pred_at(a) == p);
                        }
                        if old_self.has_pred(p) {
                            let a = choose|a: int|
                                0 <= a < old_self.len_s() && old_self.pred_at(a) == p;
                            assert(self.pred_at(a) == p);
                        }
                    }
                    self.lemma_at(io);
                    assert forall|p: Seq<char>| self.has_pred(p) && p != k implies self.pairs_map()[
                        p
                    ] == old_self.pairs_map()[p] by {
                        let a = choose|a: int| 0 <= a < self.len_s() && self.pred_at(a) == p;
                        assert(a != io);
                        self.lemma_at(a);
                        old_self.lemma_at(a);
                    }
                    old_self.lemma_at(io);
                    assert(self.pairs_map() =~= old_self.pairs_map().insert(k, v));
                }
            },
            None => {
                self.predicates_objects.push((predicate, object));
                proof {
                    let n = old_self.len_s();
                    assert forall|a: int| 0 <= a < n implies #[trigger] self.pred_at(a)
                        == old_self.pred_at(a) && #[trigger] self.obj_at(a) == old_self.obj_at(
                        a,
                    ) by {
                        assert(self.predicates_objects@[a] == old_self.predicates_objects@[a]);
                    }
                    assert(self.pred_at(n) == k);
                    assert forall|a: int, b: int| 0 <= a < b < self.len_s() implies self.pred_at(a)
                        != self.pred_at(b) by {
                        if b == n {
                            assert(old_self.pred_at(a) != k);
                        } else {
                            assert(old_self.pred_at(a) != old_self.pred_at(b));
                        }
                    }
                    assert(self.wf());
                    assert forall|p: Seq<char>| self.has_pred(p) implies old_self.has_pred(p) || p
                        == k by {
                        let a = choose|a: int| 0 <= a < self.len_s() && self.pred_at(a) == p;
                        if a < n {
                            assert(old_self.pred_at(a) == p);
                        }
                    }
                    assert forall|p: Seq<char>| old_self.has_pred(p) implies self.has_pred(p) by {
                        let a = choose|a: int| 0 <= a < n && old_self.pred_at(a) == p;
                        assert(self.pred_at(a) == p);
                    }
                    self.lemma_at(n);
                    assert forall|p: Seq<char>| self.has_pred(p) && p != k implies self.pairs_map()[
                        p
                    ] == old_self.pairs_map()[p] by {
                        let a = choose|a: int| 0 <= a < self.len_s() && self.pred_at(a) == p;
                        assert(a < n);
                        self.lemma_at(a);
                        old_self.lemma_at(a);
                    }
                    assert(self.pairs_map() =~= old_self.pairs_map().insert(k, v));
                }
            },
        }
    }

    /// Remove the pair for a predicate; whether it was present.
    pub fn remove(&mut self, predicate: &RdfName) -> (r: bool)
        requires
            old(self).wf(),
        ensures
            final(self).wf(),
            final(self).name_view() == old(self).name_view(),
            r == old(self).has_pred(predicate@),
            r ==> final(self).pairs_map() == old(self).pairs_map().remove(predicate@),
            !r ==> *final(self) == *old(self),
    {
        let ghost old_self = *self;
        let ghost k = predicate@;
        let found = self.find_pred(predicate);
        match found {
            Some(i) => {
                self.predicates_objects.remove(i);
                proof {
                    let io = i as int;
                    assert forall|a: int| 0 <= a < io implies #[trigger] self.pred_at(a)
                        == old_self.pred_at(a) && #[trigger] self.obj_at(a) == old_self.obj_at(
                        a,
                    ) by {
                        assert(self.predicates_objects@[a] == old_self.predicates_objects@[a]);
                    }
                    assert forall|a: int| io <= a < self.len_s() implies #[trigger] self.pred_at(a)
                        == old_self.pred_at(a + 1) && #[trigger] self.obj_at(a)
                        == old_self.obj_at(a + 1) by {
                        assert(self.predicates_objects@[a] == old_self.predicates_objects@[a + 1]);
                    }
                    assert forall|a: int, b: int| 0 <= a < b < self.len_s() implies self.pred_at(a)
                        != self.pred_at(b) by {
                        let ao = if a < io {
                            a
                        } else {
                            a + 1
                        };
                        let bo = if b < io {
                            b
                        } else {
                            b + 1
                        };
                        assert(self.pred_at(a) == old_self.pred_at(ao));
                        assert(self.pred_at(b) == old_self.pred_at(bo));
                        assert(old_self.pred_at(ao) != old_self.pred_at(bo));
                    }
                    assert(self.wf());
                    assert forall|p: Seq<char>| self.has_pred(p) implies old_self.has_pred(p) && p
                        != k by {
                        let a = choose|a: int| 0 <= a < self.len_s() && self.pred_at(a) == p;
                        if a < io {
                            assert(old_self.pred_at(a) == p);
                        } else {
                            assert(old_self.pred_at(a + 1) == p);
                        }
                    }
                    assert forall|p: Seq<char>| old_self.has_pred(p) && p != k implies self.has_pred(
                        p,
                    ) by {
                        let a = choose|a: int| 0 <= a < old_self.len_s() && old_self.pred_at(a) == p;
                        assert(a != io);
                        if a < io {
                            assert(self.pred_at(a) == p);
                        } else {
                            assert(self.pred_at(a - 1) == p);
                        }
                    }
                    assert forall|p: Seq<char>| self.has_pred(p) implies self.pairs_map()[p]
                        == old_self.pairs_map()[p] by {
                        let a = choose|a: int| 0 <= a < self.len_s() && self.pred_at(a) == p;
                        self.lemma_at(a);
                        if a < io {
                            old_self.lemma_at(a);
                        } else {
                            old_self.lemma_at(a + 1);
                        }
                    }
                    assert(self.pairs_map() =~= old_self.pairs_map().remove(k));
                }
                true
            },
            None => false,
        }
    }

    /// The object for a predicate, if present.
    pub fn get(&self, predicate: &RdfName) -> (r: Option<&String>)
        requires
            self.wf(),
        ensures
            match r {
                Some(o) => self.has_pred(predicate@) && o@ == self.pairs_map()[predicate@],
                None => !self.has_pred(predicate@),
            },
    {
        match self.find_pred(predicate) {
            Some(i) => {
                proof {
                    self.lemma_at(i as int);
                }
                Some(&self.predicates_objects[i].1)
            },
            None => None,
        }
    }
}

} // verus!
