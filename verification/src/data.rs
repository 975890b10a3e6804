//! Core value types of the triple library: error kinds, prefix mnemonics,
//! absolute resource identifiers, and the multi-valued `Subject` record that
//! the stream assembler builds and the store persists.

use vstd::prelude::*;

verus! {

/// Every failure the library can report.  One variant per distinct cause, so
/// that callers can branch on why a line or a fragment was rejected.
#[derive(Debug, Clone)]
pub enum TriplesError {
    /// The line grammar rejected a line; carries the offending line.
    ParseError { reason: String },
    /// An identifier cannot be split into namespace and local name.
    InvalidIRI { uri: String },
    /// A prefixed name used a mnemonic with no reachable declaration.
    UnresolvableURIPrefix { prefix_name: String, name: String },
    /// A predicate/object fragment arrived with no subject in progress.
    NoSubjectDeclaired,
    /// A subject head, combined line, or prefix declaration arrived while a
    /// subject was still open.
    PreviousSubjectNotComplete,
    /// A bare object continuation arrived with no subject in progress.
    ObjectContinuationWithoutSubject,
    /// A bare object continuation arrived while no object list was open.
    ObjectContinuationWithoutList,
    /// A predicate/object fragment arrived while an object list was open.
    PredicateWhileObjectListOpen,
}

impl TriplesError {
    /// A human-readable description of the error.
    pub fn message(&self) -> (r: String)
        ensures
            self matches TriplesError::NoSubjectDeclaired ==> r@
                == "can not load predicate without a subject"@,
            self matches TriplesError::PreviousSubjectNotComplete ==> r@
                == "previous subject stanza not terminated"@,
            self matches TriplesError::ParseError { reason } ==> r@ == "can not parse line: "@
                + reason@,
            self matches TriplesError::InvalidIRI { uri } ==> r@ == "invalid IRI: "@ + uri@,
            self matches TriplesError::UnresolvableURIPrefix { prefix_name, name } ==> r@
                == "can not locate URI for "@ + prefix_name@ + " for name "@ + name@,
            self matches TriplesError::ObjectContinuationWithoutSubject ==> r@
                == "object continuation without a subject"@,
            self matches TriplesError::ObjectContinuationWithoutList ==> r@
                == "object continuation without an open object list"@,
            self matches TriplesError::PredicateWhileObjectListOpen ==> r@
                == "predicate fragment while an object list is open"@,
    {
        match self {
            TriplesError::ParseError { reason } => {
                let mut s = String::new();
                s.append("can not parse line: ");
                s.append(reason.as_str());
                s
            },
            TriplesError::InvalidIRI { uri } => {
                let mut s = String::new();
                s.append("invalid IRI: ");
                s.append(uri.as_str());
                s
            },
            TriplesError::UnresolvableURIPrefix { prefix_name, name } => {
                let mut s = String::new();
                s.append("can not locate URI for ");
                s.append(prefix_name.as_str());
                s.append(" for name ");
                s.append(name.as_str());
                s
            },
            TriplesError::NoSubjectDeclaired => String::from_str(
                "can not load predicate without a subject",
            ),
            TriplesError::PreviousSubjectNotComplete => String::from_str(
                "previous subject stanza not terminated",
            ),
            TriplesError::ObjectContinuationWithoutSubject => String::from_str(
                "object continuation without a subject",
            ),
            TriplesError::ObjectContinuationWithoutList => String::from_str(
                "object continuation without an open object list",
            ),
            TriplesError::PredicateWhileObjectListOpen => String::from_str(
                "predicate fragment while an object list is open",
            ),
        }
    }
}

/// A short mnemonic bound to a namespace within one parse session.
#[derive(Debug, Clone)]
pub struct Pre(String);

impl View for Pre {
    type V = Seq<char>;

    closed spec fn view(&self) -> Seq<char> {
        self.0@
    }
}

impl Pre {
    pub fn new(name: String) -> (r: Self)
        ensures
            r@ == name@,
    {
        Pre(name)
    }

    /// The mnemonic text.
    pub fn as_str(&self) -> (r: &str)
        ensures
            r@ == self@,
    {
        self.0.as_str()
    }
}

impl PartialEq for Pre {
    fn eq(&self, other: &Pre) -> (r: bool) {
        self.0 == other.0
    }
}

impl vstd::std_specs::cmp::PartialEqSpecImpl for Pre {
    open spec fn obeys_eq_spec() -> bool {
        true
    }

    open spec fn eq_spec(&self, other: &Pre) -> bool {
        self@ == other@
    }
}

/// An absolute resource identifier; equality is by exact string content.
#[derive(Debug, Clone)]
pub struct RdfName(String);

impl View for RdfName {
    type V = Seq<char>;

    closed spec fn view(&self) -> Seq<char> {
        self.0@
    }
}

impl RdfName {
    pub fn new(name: String) -> (r: Self)
        ensures
            r@ == name@,
    {
        RdfName(name)
    }

    /// The identifier text.
    pub fn as_str(&self) -> (r: &str)
        ensures
            r@ == self@,
    {
        self.0.as_str()
    }

    /// A fresh owned copy of the identifier text.
    pub fn to_text(&self) -> (r: String)
        ensures
            r@ == self@,
    {
        self.0.clone()
    }
}

impl PartialEq for RdfName {
    fn eq(&self, other: &RdfName) -> (r: bool) {
        self.0 == other.0
    }
}

impl vstd::std_specs::cmp::PartialEqSpecImpl for RdfName {
    open spec fn obeys_eq_spec() -> bool {
        true
    }

    open spec fn eq_spec(&self, other: &RdfName) -> bool {
        self@ == other@
    }
}

/// An owned copy of a borrowed string slice.
pub fn str_to_string(s: &str) -> (r: String)
    ensures
        r@ == s@,
{
    s.to_owned()
}

/// One resource plus a mapping from predicate identifier to a set of object
/// strings.  A predicate may have one or many objects; duplicates collapse.
/// The pairs are kept in first-insertion order with unique predicate keys.
#[derive(Debug)]
pub struct Subject {
    subject: RdfName,
    predicate_object_pairs: Vec<(RdfName, Vec<String>)>,
}

impl Subject {
    /// The subject identifier, as a sequence of characters.
    pub closed spec fn name_view(&self) -> Seq<char> {
        self.subject@
    }

    /// How many distinct predicates the subject carries.
    pub closed spec fn num_pairs(&self) -> int {
        self.predicate_object_pairs@.len() as int
    }

    /// The predicate identifier stored at row `i`.
    pub closed spec fn pred_view(&self, i: int) -> Seq<char> {
        self.predicate_object_pairs@[i].0@
    }

    /// The object strings stored at row `i`, in insertion order.
    pub closed spec fn objs_view(&self, i: int) -> Seq<Seq<char>> {
        self.predicate_object_pairs@[i].1@.map_values(|o: String| o@)
    }

    /// Whether some row carries the predicate `k`.
    pub open spec fn has_pred(&self, k: Seq<char>) -> bool {
        exists|i: int| 0 <= i < self.num_pairs() && self.pred_view(i) == k
    }

    /// The set of objects stored at row `i`.
    pub open spec fn objs_set_at(&self, i: int) -> Set<Seq<char>> {
        self.objs_view(i).to_set()
    }

    /// The predicate-to-object-set mapping the subject denotes.
    pub open spec fn pairs_map(&self) -> Map<Seq<char>, Set<Seq<char>>> {
        Map::new(
            |k: Seq<char>| self.has_pred(k),
            |k: Seq<char>|
                Set::new(
                    |o: Seq<char>|
                        exists|i: int|
                            0 <= i < self.num_pairs() && self.pred_view(i) == k && self.objs_view(
                                i,
                            ).contains(o),
                ),
        )
    }

    /// Structural invariant: predicate keys are unique, every object list is
    /// non-empty, and no object repeats within one list.
    pub open spec fn wf(&self) -> bool {
        &&& forall|i: int, j: int|
            0 <= i < j < self.num_pairs() ==> self.pred_view(i) != self.pred_view(j)
        &&& forall|i: int| 0 <= i < self.num_pairs() ==> #[trigger] self.objs_view(i).len() > 0
        &&& forall|i: int, a: int, b: int|
            0 <= i < self.num_pairs() && 0 <= a < b < self.objs_view(i).len()
                ==> self.objs_view(i)[a] != self.objs_view(i)[b]
    }

    /// With unique keys, the mapping at a row's predicate is exactly that
    /// row's object set.
    pub proof fn lemma_row_set(&self, i: int)
        requires
            self.wf(),
            0 <= i < self.num_pairs(),
        ensures
            self.has_pred(self.pred_view(i)),
            self.pairs_map()[self.pred_view(i)] =~= self.objs_set_at(i),
    {
        let k = self.pred_view(i);
        assert forall|o: Seq<char>| self.pairs_map()[k].contains(o) implies self.objs_set_at(
            i,
        ).contains(o) by {
            let j = choose|j: int|
                0 <= j < self.num_pairs() && self.pred_view(j) == k && self.objs_view(j).contains(
                    o,
                );
            assert(j == i);
        }
        assert forall|o: Seq<char>| self.objs_set_at(i).contains(o) implies self.pairs_map()[
            k
        ].contains(o) by {
            assert(self.objs_view(i).contains(o));
        }
    }

    pub fn new(subject: RdfName) -> (r: Self)
        ensures
            r.wf(),
            r.name_view() == subject@,
            r.num_pairs() == 0,
            r.pairs_map() =~= Map::<Seq<char>, Set<Seq<char>>>::empty(),
    {
        Subject { subject, predicate_object_pairs: Vec::new() }
    }

    pub fn name(&self) -> (r: &RdfName)
        ensures
            r@ == self.name_view(),
    {
        &self.subject
    }

    /// The rows of the subject, each a predicate with its object list.
    pub fn predicate_object_pairs(&self) -> (r: &Vec<(RdfName, Vec<String>)>)
        ensures
            r@.len() == self.num_pairs(),
            forall|i: int|
                0 <= i < self.num_pairs() ==> (#[trigger] r@[i]).0@ == self.pred_view(i)
                    && r@[i].1@.map_values(|o: String| o@) == self.objs_view(i),
    {
        &self.predicate_object_pairs
    }

    /// The row index holding predicate `predicate`, if any.
    fn find_pred(&self, predicate: &RdfName) -> (r: Option<usize>)
        ensures
            match r {
                Some(i) => 0 <= i < self.num_pairs() && self.pred_view(i as int) == predicate@,
                None => !self.has_pred(predicate@),
            },
    {
        let n = self.predicate_object_pairs.len();
        for i in 0..n
            invariant
                n == self.num_pairs(),
                forall|j: int| 0 <= j < i ==> self.pred_view(j) != predicate@,
        {
            if self.predicate_object_pairs[i].0 == *predicate {
                return Some(i);
            }
        }
        None
    }

    /// Record `object` under `predicate`; a duplicate object collapses.
    pub fn add(&mut self, predicate: RdfName, object: String)
        requires
            old(self).wf(),
        ensures
            final(self).wf(),
            final(self).name_view() == old(self).name_view(),
            final(self).pairs_map() == old(self).pairs_map().insert(
                predicate@,
                (if old(self).has_pred(predicate@) {
                    old(self).pairs_map()[predicate@]
                } else {
                    Set::<Seq<char>>::empty()
                }).insert(object@),
            ),
            forall|i: int|
                0 <= i < old(self).num_pairs() ==> #[trigger] final(self).pred_view(i) == old(
                    self,
                ).pred_view(i),
            forall|i: int|
                0 <= i < old(self).num_pairs() && old(self).pred_view(i) != predicate@
                    ==> #[trigger] final(self).objs_view(i) == old(self).objs_view(i),
            old(self).has_pred(predicate@) ==> final(self).num_pairs() == old(self).num_pairs(),
            !old(self).has_pred(predicate@) ==> final(self).num_pairs() == old(self).num_pairs()
                + 1 && final(self).pred_view(old(self).num_pairs()) == predicate@
                && final(self).objs_view(old(self).num_pairs()) =~= seq![object@],
    {
        let ghost old_self = *self;
        let ghost k = predicate@;
        let found = self.find_pred(&predicate);
        match found {
            Some(i) => {
                proof {
                    old_self.lemma_row_set(i as int);
                }
                let mut seen = false;
                let m = self.predicate_object_pairs[i].1.len();
                for j in 0..m
                    invariant
                        *self == old_self,
                        i < old_self.num_pairs(),
                        m == old_self.objs_view(i as int).len(),
                        seen <==> exists|a: int|
                            0 <= a < j && old_self.objs_view(i as int)[a] == object@,
                {
                    if self.predicate_object_pairs[i].1[j] == object {
                        proof {
                            assert(old_self.objs_view(i as int)[j as int] == object@);
                        }
                        seen = true;
                    } else {
                        proof {
                            assert(old_self.objs_view(i as int)[j as int] != object@);
                        }
                    }
                }
                if seen {
                    proof {
                        assert(old_self.objs_set_at(i as int).contains(object@));
                        assert(old_self.pairs_map()[k].insert(object@) =~= old_self.pairs_map()[
                            k
                        ]);
                        assert(old_self.pairs_map().insert(k, old_self.pairs_map()[k])
                            =~= old_self.pairs_map());
                    }
                } else {
                    self.predicate_object_pairs[i].1.push(object);
                    proof {
                        let n = self.num_pairs();
                        let io = i as int;
                        assert(self.objs_view(io) =~= old_self.objs_view(io).push(object@));
                        assert forall|a: int| 0 <= a < n implies #[trigger] self.pred_view(a)
                            == old_self.pred_view(a) by {
                            if a != io {
                                assert(self.predicate_object_pairs@[a]
                                    == old_self.predicate_object_pairs@[a]);
                            }
                        }
                        assert forall|a: int| 0 <= a < n && a != io implies #[trigger] self.objs_view(
                            a,
                        ) == old_self.objs_view(a) by {
                            assert(self.predicate_object_pairs@[a]
                                == old_self.predicate_object_pairs@[a]);
                        }
                        assert(forall|a: int|
                            0 <= a < old_self.objs_view(io).len()
                                ==> old_self.objs_view(io)[a] != object@);
                        assert forall|r: int, a: int, b: int|
                            0 <= r < n && 0 <= a < b < self.objs_view(r).len() implies self.objs_view(
                            r,
                        )[a] != self.objs_view(r)[b] by {
                            if r == io {
                                if b == old_self.objs_view(r).len() {
                                    assert(self.objs_view(r)[a] == old_self.objs_view(r)[a]);
                                    assert(self.objs_view(r)[b] == object@);
                                } else {
                                    assert(self.objs_view(r)[a] == old_self.objs_view(r)[a]);
                                    assert(self.objs_view(r)[b] == old_self.objs_view(r)[b]);
                                }
                            } else {
                                assert(self.objs_view(r) == old_self.objs_view(r));
                            }
                        }
                        assert(self.wf());
                        self.lemma_row_set(io);
                        assert forall|x: Seq<char>| self.objs_set_at(io).contains(
                            x,
                        ) implies old_self.objs_set_at(io).insert(object@).contains(x) by {
                            let idx = choose|idx: int|
                                0 <= idx < self.objs_view(io).len() && self.objs_view(io)[idx]
                                    == x;
                            if idx < old_self.objs_view(io).len() {
                                assert(old_self.objs_view(io)[idx] == x);
                            }
                        }
                        assert forall|x: Seq<char>|
                            old_self.objs_set_at(io).insert(object@).contains(
                                x,
                            ) implies self.objs_set_at(io).contains(x) by {
                            if x == object@ {
                                assert(self.objs_view(io)[old_self.objs_view(io).len() as int]
                                    == x);
                            } else {
                                let idx = choose|idx: int|
                                    0 <= idx < old_self.objs_view(io).len() && old_self.objs_view(
                                        io,
                                    )[idx] == x;
                                assert(self.objs_view(io)[idx] == x);
                            }
                        }
                        assert(self.objs_set_at(io) =~= old_self.objs_set_at(io).insert(object@));
                        lemma_pairs_map_update(old_self, *self, io, k, self.objs_set_at(io));
                    }
                }
            },
            None => {
                let mut objs: Vec<String> = Vec::new();
                objs.push(object);
                self.predicate_object_pairs.push((predicate, objs));
                proof {
                    let n = old_self.num_pairs();
                    assert(self.num_pairs() == n + 1);
                    assert forall|a: int| 0 <= a < n implies #[trigger] self.pred_view(a)
                        == old_self.pred_view(a) && #[trigger] self.objs_view(a)
                        == old_self.objs_view(a) by {
                        assert(self.predicate_object_pairs@[a]
                            == old_self.predicate_object_pairs@[a]);
                    }
                    assert(self.objs_view(n) =~= seq![object@]);
                    assert(self.pred_view(n) == k);
                    assert forall|a: int, b: int| 0 <= a < b < self.num_pairs() implies self.pred_view(
                        a,
                    ) != self.pred_view(b) by {
                        if b == n {
                            assert(self.pred_view(a) == old_self.pred_view(a));
                            assert(old_self.pred_view(a) != k);
                        } else {
                            assert(old_self.pred_view(a) != old_self.pred_view(b));
                        }
                    }
                    assert forall|r: int| 0 <= r < self.num_pairs() implies #[trigger] self.objs_view(
                        r,
                    ).len() > 0 by {
                        if r < n {
                            assert(self.objs_view(r) == old_self.objs_view(r));
                        }
                    }
                    assert forall|r: int, a: int, b: int|
                        0 <= r < self.num_pairs() && 0 <= a < b < self.objs_view(r).len() implies self.objs_view(
                        r,
                    )[a] != self.objs_view(r)[b] by {
                        if r < n {
                            assert(self.objs_view(r) == old_self.objs_view(r));
                        }
                    }
                    assert(self.wf());
                    self.lemma_row_set(n);
                    assert(seq![object@][0] == object@);
                    assert(self.objs_view(n).contains(object@));
                    assert forall|x: Seq<char>| self.objs_set_at(n).contains(x) implies x
                        == object@ by {
                        let idx = choose|idx: int|
                            0 <= idx < self.objs_view(n).len() && self.objs_view(n)[idx] == x;
                        assert(idx == 0);
                    }
                    assert(self.objs_set_at(n) =~= Set::<Seq<char>>::empty().insert(object@));
                    lemma_pairs_map_append(old_self, *self, k, self.objs_set_at(n));
                }
            },
        }
    }

    pub fn get(&self, predicate: &RdfName) -> (r: Option<&Vec<String>>)
        requires
            self.wf(),
        ensures
            match r {
                Some(v) => self.has_pred(predicate@) && v@.map_values(|o: String| o@).to_set()
                    =~= self.pairs_map()[predicate@] && v@.len() > 0,
                None => !self.has_pred(predicate@),
            },
    {
        let found = self.find_pred(predicate);
        match found {
            Some(i) => {
                proof {
                    self.lemma_row_set(i as int);
                    assert(self.predicate_object_pairs@[i as int].1@.map_values(|o: String| o@)
                        == self.objs_view(i as int));
                }
                Some(&self.predicate_object_pairs[i].1)
            },
            None => None,
        }
    }

    /// Remove one object from a predicate's set; drop the row when the set
    /// empties.  Returns whether the object was present.
    pub fn remove(&mut self, predicate: &RdfName, object: &str) -> (r: bool)
        requires
            old(self).wf(),
        ensures
            final(self).wf(),
            final(self).name_view() == old(self).name_view(),
            r == (old(self).has_pred(predicate@) && old(self).pairs_map()[predicate@].contains(
                object@,
            )),
            !r ==> *final(self) == *old(self),
            r ==> final(self).pairs_map() == (if old(self).pairs_map()[predicate@].remove(object@)
                =~= Set::<Seq<char>>::empty() {
                old(self).pairs_map().remove(predicate@)
            } else {
                old(self).pairs_map().insert(
                    predicate@,
                    old(self).pairs_map()[predicate@].remove(object@),
                )
            }),
    {
        let ghost old_self = *self;
        let ghost k = predicate@;
        let object_owned = object.to_owned();
        let found = self.find_pred(predicate);
        match found {
            Some(i) => {
                proof {
                    old_self.lemma_row_set(i as int);
                }
                let m = self.predicate_object_pairs[i].1.len();
                let mut pos: Option<usize> = None;
                for j in 0..m
                    invariant
                        *self == old_self,
                        i < old_self.num_pairs(),
                        m == old_self.objs_view(i as int).len(),
                        object_owned@ == object@,
                        match pos {
                            Some(p) => p < j && old_self.objs_view(i as int)[p as int] == object@,
                            None => forall|a: int|
                                0 <= a < j ==> old_self.objs_view(i as int)[a] != object@,
                        },
                {
                    if pos.is_none() {
                        if self.predicate_object_pairs[i].1[j] == object_owned {
                            proof {
                                assert(old_self.objs_view(i as int)[j as int] == object@);
                            }
                            pos = Some(j);
                        } else {
                            proof {
                                assert(old_self.objs_view(i as int)[j as int] != object@);
                            }
                        }
                    }
                }
                match pos {
                    Some(p) => {
                        proof {
                            assert(old_self.objs_set_at(i as int).contains(object@));
                        }
                        if self.predicate_object_pairs[i].1.len() == 1 {
                            self.predicate_object_pairs.remove(i);
                            proof {
                                let io = i as int;
                                assert(old_self.objs_view(io) =~= seq![object@]);
                                assert forall|x: Seq<char>| old_self.objs_set_at(io).contains(
                                    x,
                                ) implies x == object@ by {
                                    let idx = choose|idx: int|
                                        0 <= idx < old_self.objs_view(io).len()
                                            && old_self.objs_view(io)[idx] == x;
                                    assert(idx == 0);
                                }
                                assert(old_self.objs_set_at(io).remove(object@) =~= Set::<
                                    Seq<char>,
                                >::empty());
                                assert(old_self.pairs_map()[k].remove(object@) =~= Set::<
                                    Seq<char>,
                                >::empty());
                                assert forall|a: int| 0 <= a < io implies #[trigger] self.pred_view(
                                    a,
                                ) == old_self.pred_view(a) && #[trigger] self.objs_view(a)
                                    == old_self.objs_view(a) by {
                                    assert(self.predicate_object_pairs@[a]
                                        == old_self.predicate_object_pairs@[a]);
                                }
                                assert forall|a: int|
                                    io <= a < self.num_pairs() implies #[trigger] self.pred_view(a)
                                    == old_self.pred_view(a + 1) && #[trigger] self.objs_view(a)
                                    == old_self.objs_view(a + 1) by {
                                    assert(self.predicate_object_pairs@[a]
                                        == old_self.predicate_object_pairs@[a + 1]);
                                }
                                assert forall|a: int, b: int|
                                    0 <= a < b < self.num_pairs() implies self.pred_view(a)
                                    != self.pred_view(b) by {
                                    let ao = if a < io { a } else { a + 1 };
                                    let bo = if b < io { b } else { b + 1 };
                                    assert(self.pred_view(a) == old_self.pred_view(ao));
                                    assert(self.pred_view(b) == old_self.pred_view(bo));
                                    assert(old_self.pred_view(ao) != old_self.pred_view(bo));
                                }
                                assert forall|r: int| 0 <= r < self.num_pairs() implies {
                                    &&& #[trigger] self.objs_view(r).len() > 0
                                    &&& forall|a: int, b: int|
                                        0 <= a < b < self.objs_view(r).len() ==> self.objs_view(
                                            r,
                                        )[a] != self.objs_view(r)[b]
                                } by {
                                    let ro = if r < io { r } else { r + 1 };
                                    assert(self.objs_view(r) == old_self.objs_view(ro));
                                }
                                assert(self.wf());
                                lemma_pairs_map_remove_row(old_self, *self, io, k);
                            }
                        } else {
                            self.predicate_object_pairs[i].1.remove(p);
                            proof {
                                let io = i as int;
                                assert(self.objs_view(io) =~= old_self.objs_view(io).remove(
                                    p as int,
                                ));
                                assert forall|a: int| 0 <= a < self.num_pairs() implies #[trigger] self.pred_view(
                                    a,
                                ) == old_self.pred_view(a) by {
                                    if a != io {
                                        assert(self.predicate_object_pairs@[a]
                                            == old_self.predicate_object_pairs@[a]);
                                    }
                                }
                                assert forall|a: int|
                                    0 <= a < self.num_pairs() && a != io implies #[trigger] self.objs_view(
                                    a,
                                ) == old_self.objs_view(a) by {
                                    assert(self.predicate_object_pairs@[a]
                                        == old_self.predicate_object_pairs@[a]);
                                }
                                assert forall|a: int, b: int|
                                    0 <= a < b < self.num_pairs() implies self.pred_view(a)
                                    != self.pred_view(b) by {
                                    assert(old_self.pred_view(a) != old_self.pred_view(b));
                                }
                                assert forall|r: int, a: int, b: int|
                                    0 <= r < self.num_pairs() && 0 <= a < b < self.objs_view(
                                        r,
                                    ).len() implies self.objs_view(r)[a] != self.objs_view(
                                    r,
                                )[b] by {
                                    if r == io {
                                        let aa = if a < p { a } else { a + 1 };
                                        let bb = if b < p { b } else { b + 1 };
                                        assert(self.objs_view(r)[a] == old_self.objs_view(r)[aa]);
                                        assert(self.objs_view(r)[b] == old_self.objs_view(r)[bb]);
                                        assert(old_self.objs_view(r)[aa] != old_self.objs_view(
                                            r,
                                        )[bb]);
                                    } else {
                                        assert(self.objs_view(r) == old_self.objs_view(r));
                                    }
                                }
                                assert forall|r: int| 0 <= r < self.num_pairs() implies #[trigger] self.objs_view(
                                    r,
                                ).len() > 0 by {
                                    if r != io {
                                        assert(self.objs_view(r) == old_self.objs_view(r));
                                    }
                                }
                                assert(self.wf());
                                self.lemma_row_set(io);
                                lemma_seq_remove_to_set(old_self.objs_view(io), p as int);
                                assert(self.objs_set_at(io) =~= old_self.objs_set_at(io).remove(
                                    object@,
                                ));
                                assert(self.objs_view(io).len() > 0);
                                let witness = self.objs_view(io)[0];
                                assert(self.objs_view(io).contains(witness));
                                assert(self.objs_set_at(io).contains(witness));
                                assert(!(old_self.pairs_map()[k].remove(object@) =~= Set::<
                                    Seq<char>,
                                >::empty()));
                                lemma_pairs_map_update(
                                    old_self,
                                    *self,
                                    io,
                                    k,
                                    self.objs_set_at(io),
                                );
                            }
                        }
                        true
                    },
                    None => {
                        proof {
                            assert forall|x: Seq<char>|
                                old_self.objs_view(i as int).contains(x) implies x != object@ by {}
                            assert(!old_self.objs_set_at(i as int).contains(object@));
                        }
                        false
                    },
                }
            },
            None => false,
        }
    }

    pub fn all_predicates(&self) -> (r: Vec<RdfName>)
        ensures
            r@.len() == self.num_pairs(),
            forall|i: int| 0 <= i < self.num_pairs() ==> #[trigger] r@[i]@ == self.pred_view(i),
    {
        let n = self.predicate_object_pairs.len();
        let mut r: Vec<RdfName> = Vec::new();
        for i in 0..n
            invariant
                n == self.num_pairs(),
                r@.len() == i,
                forall|j: int| 0 <= j < i ==> #[trigger] r@[j]@ == self.pred_view(j),
        {
            r.push(RdfName::new(self.predicate_object_pairs[i].0.to_text()));
        }
        r
    }

    /// Every object list, in row order.
    pub fn all_objects(&self) -> (r: Vec<Vec<String>>)
        ensures
            r@.len() == self.num_pairs(),
            forall|i: int|
                0 <= i < self.num_pairs() ==> (#[trigger] r@[i])@.map_values(|o: String| o@)
                    == self.objs_view(i),
    {
        let n = self.predicate_object_pairs.len();
        let mut r: Vec<Vec<String>> = Vec::new();
        for i in 0..n
            invariant
                n == self.num_pairs(),
                r@.len() == i,
                forall|j: int|
                    0 <= j < i ==> (#[trigger] r@[j])@.map_values(|o: String| o@)
                        == self.objs_view(j),
        {
            let row = &self.predicate_object_pairs[i].1;
            let m = row.len();
            let mut objs: Vec<String> = Vec::new();
            for j in 0..m
                invariant
                    m == row@.len(),
                    objs@.len() == j,
                    forall|a: int| 0 <= a < j ==> #[trigger] objs@[a]@ == row@[a]@,
            {
                objs.push(row[j].clone());
            }
            proof {
                assert(objs@.map_values(|o: String| o@) =~= self.objs_view(i as int));
            }
            r.push(objs);
        }
        r
    }
}

/// Rewriting the object list of one existing row updates the mapping at that
/// row's key and nothing else.
proof fn lemma_pairs_map_update(old_s: Subject, new_s: Subject, i: int, k: Seq<char>, v: Set<Seq<char>>)
    requires
        old_s.wf(),
        new_s.wf(),
        0 <= i < old_s.num_pairs(),
        new_s.num_pairs() == old_s.num_pairs(),
        forall|a: int| 0 <= a < old_s.num_pairs() ==> #[trigger] new_s.pred_view(a) == old_s.pred_view(a),
        forall|a: int|
            0 <= a < old_s.num_pairs() && a != i ==> #[trigger] new_s.objs_view(a) == old_s.objs_view(a),
        old_s.pred_view(i) == k,
        new_s.objs_set_at(i) == v,
    ensures
        new_s.pairs_map() =~= old_s.pairs_map().insert(k, v),
{
    assert forall|kk: Seq<char>| new_s.has_pred(kk) implies old_s.has_pred(kk) by {
        let a = choose|a: int| 0 <= a < new_s.num_pairs() && new_s.pred_view(a) == kk;
        assert(old_s.pred_view(a) == kk);
    }
    assert forall|kk: Seq<char>| old_s.has_pred(kk) implies new_s.has_pred(kk) by {
        let a = choose|a: int| 0 <= a < old_s.num_pairs() && old_s.pred_view(a) == kk;
        assert(new_s.pred_view(a) == kk);
    }
    assert(old_s.has_pred(k));
    new_s.lemma_row_set(i);
    assert forall|kk: Seq<char>| new_s.has_pred(kk) && kk != k implies new_s.pairs_map()[kk]
        =~= old_s.pairs_map()[kk] by {
        let a = choose|a: int| 0 <= a < new_s.num_pairs() && new_s.pred_view(a) == kk;
        assert(a != i);
        new_s.lemma_row_set(a);
        old_s.lemma_row_set(a);
        assert(new_s.objs_set_at(a) =~= old_s.objs_set_at(a));
    }
}

/// Appending one fresh-keyed row extends the mapping by exactly that key.
proof fn lemma_pairs_map_append(old_s: Subject, new_s: Subject, k: Seq<char>, v: Set<Seq<char>>)
    requires
        old_s.wf(),
        new_s.wf(),
        new_s.num_pairs() == old_s.num_pairs() + 1,
        forall|a: int| 0 <= a < old_s.num_pairs() ==> #[trigger] new_s.pred_view(a) == old_s.pred_view(a),
        forall|a: int| 0 <= a < old_s.num_pairs() ==> #[trigger] new_s.objs_view(a) == old_s.objs_view(a),
        new_s.pred_view(old_s.num_pairs()) == k,
        !old_s.has_pred(k),
        new_s.objs_set_at(old_s.num_pairs()) == v,
    ensures
        new_s.pairs_map() =~= old_s.pairs_map().insert(k, v),
{
    assert forall|kk: Seq<char>| new_s.has_pred(kk) implies old_s.has_pred(kk) || kk == k by {
        let a = choose|a: int| 0 <= a < new_s.num_pairs() && new_s.pred_view(a) == kk;
        if a < old_s.num_pairs() {
            assert(old_s.pred_view(a) == kk);
        }
    }
    assert forall|kk: Seq<char>| old_s.has_pred(kk) implies new_s.has_pred(kk) by {
        let a = choose|a: int| 0 <= a < old_s.num_pairs() && old_s.pred_view(a) == kk;
        assert(new_s.pred_view(a) == kk);
    }
    assert(new_s.has_pred(k));
    new_s.lemma_row_set(old_s.num_pairs());
    assert forall|kk: Seq<char>| new_s.has_pred(kk) && kk != k implies new_s.pairs_map()[kk]
        =~= old_s.pairs_map()[kk] by {
        let a = choose|a: int| 0 <= a < new_s.num_pairs() && new_s.pred_view(a) == kk;
        assert(a < old_s.num_pairs());
        new_s.lemma_row_set(a);
        old_s.lemma_row_set(a);
        assert(new_s.objs_set_at(a) =~= old_s.objs_set_at(a));
    }
}

/// Dropping one whole row removes exactly that row's key from the mapping.
proof fn lemma_pairs_map_remove_row(old_s: Subject, new_s: Subject, i: int, k: Seq<char>)
    requires
        old_s.wf(),
        new_s.wf(),
        0 <= i < old_s.num_pairs(),
        new_s.num_pairs() == old_s.num_pairs() - 1,
        forall|a: int|
            0 <= a < i ==> #[trigger] new_s.pred_view(a) == old_s.pred_view(a) && new_s.objs_view(a)
                == old_s.objs_view(a),
        forall|a: int|
            i <= a < new_s.num_pairs() ==> #[trigger] new_s.pred_view(a) == old_s.pred_view(a + 1)
                && new_s.objs_view(a) == old_s.objs_view(a + 1),
        old_s.pred_view(i) == k,
    ensures
        new_s.pairs_map() =~= old_s.pairs_map().remove(k),
{
    assert forall|kk: Seq<char>| new_s.has_pred(kk) implies old_s.has_pred(kk) && kk != k by {
        let a = choose|a: int| 0 <= a < new_s.num_pairs() && new_s.pred_view(a) == kk;
        if a < i {
            assert(old_s.pred_view(a) == kk);
        } else {
            assert(old_s.pred_view(a + 1) == kk);
        }
    }
    assert forall|kk: Seq<char>| old_s.has_pred(kk) && kk != k implies new_s.has_pred(kk) by {
        let a = choose|a: int| 0 <= a < old_s.num_pairs() && old_s.pred_view(a) == kk;
        assert(a != i);
        if a < i {
            assert(new_s.pred_view(a) == kk);
        } else {
            assert(new_s.pred_view(a - 1) == kk);
        }
    }
    assert forall|kk: Seq<char>| new_s.has_pred(kk) implies new_s.pairs_map()[kk]
        =~= old_s.pairs_map()[kk] by {
        let a = choose|a: int| 0 <= a < new_s.num_pairs() && new_s.pred_view(a) == kk;
        new_s.lemma_row_set(a);
        if a < i {
            old_s.lemma_row_set(a);
            assert(new_s.objs_set_at(a) =~= old_s.objs_set_at(a));
        } else {
            old_s.lemma_row_set(a + 1);
            assert(new_s.objs_set_at(a) =~= old_s.objs_set_at(a + 1));
        }
    }
}

/// Removing one occurrence from a duplicate-free sequence removes exactly
/// that element from the set of its members.
pub proof fn lemma_seq_remove_to_set(s: Seq<Seq<char>>, p: int)
    requires
        0 <= p < s.len(),
        forall|a: int, b: int| 0 <= a < b < s.len() ==> s[a] != s[b],
    ensures
        s.remove(p).to_set() =~= s.to_set().remove(s[p]),
{
    let t = s.remove(p);
    assert forall|o: Seq<char>| t.to_set().contains(o) implies s.to_set().remove(s[p]).contains(
        o,
    ) by {
        let a = choose|a: int| 0 <= a < t.len() && t[a] == o;
        if a < p {
            assert(s[a] == o);
        } else {
            assert(s[a + 1] == o);
        }
    }
    assert forall|o: Seq<char>| s.to_set().remove(s[p]).contains(o) implies t.to_set().contains(
        o,
    ) by {
        let a = choose|a: int| 0 <= a < s.len() && s[a] == o;
        if a < p {
            assert(t[a] == o);
        } else {
            assert(a > p);
            assert(t[a - 1] == o);
        }
    }
}

} // verus!
