//! The triple store: name/value interning and the flattened
//! (subject, predicate, object) relation, with per-subject reconstruction.
//! This is the logical store the ingestion pipeline fills and export replays;
//! durability around it is the caller's business.

use crate::data::RdfName;
use crate::data::Subject;
use crate::data::str_to_string;
use vstd::prelude::*;

verus! {

/// One relation row: indices into the interning tables.
#[derive(Debug, Clone, PartialEq)]
pub struct Triple {
    pub subject: usize,
    pub predicate: usize,
    pub object: usize,
}

/// The interned relational store.  `names` interns subject and predicate
/// identifiers, `objects` interns object text; ids are indices, so an
/// existing string keeps its id forever.
pub struct TripleStore {
    names: Vec<String>,
    objects: Vec<String>,
    triples: Vec<Triple>,
}

impl TripleStore {
    /// The interned identifiers, in id order.
    pub closed spec fn names_view(&self) -> Seq<Seq<char>> {
        self.names@.map_values(|s: String| s@)
    }

    /// The interned object strings, in id order.
    pub closed spec fn objects_view(&self) -> Seq<Seq<char>> {
        self.objects@.map_values(|s: String| s@)
    }

    /// How many relation rows the store holds.
    pub closed spec fn num_triples(&self) -> int {
        self.triples@.len() as int
    }

    /// Relation row `k`, resolved through the interning tables.
    pub closed spec fn triple_view_at(&self, k: int) -> (Seq<char>, Seq<char>, Seq<char>) {
        (
            self.names_view()[self.triples@[k].subject as int],
            self.names_view()[self.triples@[k].predicate as int],
            self.objects_view()[self.triples@[k].object as int],
        )
    }

    /// The whole relation, resolved, in insertion order.
    pub open spec fn triples_view(&self) -> Seq<(Seq<char>, Seq<char>, Seq<char>)> {
        Seq::new(self.num_triples() as nat, |k: int| self.triple_view_at(k))
    }

    /// Structural invariant: both interning tables are duplicate-free and
    /// every row's ids are in range.
    pub closed spec fn wf(&self) -> bool {
        &&& forall|i: int, j: int|
            0 <= i < j < self.names_view().len() ==> self.names_view()[i] != self.names_view()[j]
        &&& forall|i: int, j: int|
            0 <= i < j < self.objects_view().len() ==> self.objects_view()[i]
                != self.objects_view()[j]
        &&& forall|k: int|
            0 <= k < self.num_triples() ==> (#[trigger] self.triples@[k]).subject
                < self.names_view().len() && self.triples@[k].predicate < self.names_view().len()
                && self.triples@[k].object < self.objects_view().len()
    }

    pub fn new() -> (r: Self)
        ensures
            r.wf(),
            r.names_view() =~= Seq::<Seq<char>>::empty(),
            r.objects_view() =~= Seq::<Seq<char>>::empty(),
            r.num_triples() == 0,
    {
        let r = TripleStore { names: Vec::new(), objects: Vec::new(), triples: Vec::new() };
        proof {
            assert(r.names_view() =~= Seq::<Seq<char>>::empty());
            assert(r.objects_view() =~= Seq::<Seq<char>>::empty());
        }
        r
    }

    /// How many identifiers are interned.
    pub fn names_count(&self) -> (r: usize)
        ensures
            r == self.names_view().len(),
    {
        self.names.len()
    }

    /// How many object strings are interned.
    pub fn objects_count(&self) -> (r: usize)
        ensures
            r == self.objects_view().len(),
    {
        self.objects.len()
    }

    /// How many relation rows the store holds.
    pub fn triples_count(&self) -> (r: usize)
        ensures
            r == self.num_triples(),
    {
        self.triples.len()
    }

    /// Find an interned string in a table.
    fn find_in(table: &Vec<String>, s: &str) -> (r: Option<usize>)
        ensures
            match r {
                Some(i) => i < table@.len() && table@[i as int]@ == s@,
                None => forall|i: int| 0 <= i < table@.len() ==> table@[i]@ != s@,
            },
    {
        let owned = s.to_owned();
        let n = table.len();
        for i in 0..n
            invariant
                n == table@.len(),
                owned@ == s@,
                forall|j: int| 0 <= j < i ==> table@[j]@ != s@,
        {
            if table[i] == owned {
                return Some(i);
            }
        }
        None
    }

    /// Get-or-create the durable id of an identifier: an existing string is a
    /// no-op lookup returning its one id; a new string is appended.
    pub fn get_or_insert_name(&mut self, name: &str) -> (id: usize)
        requires
            old(self).wf(),
        ensures
            final(self).wf(),
            id < final(self).names_view().len(),
            final(self).names_view()[id as int] == name@,
            old(self).names_view().contains(name@) ==> *final(self) == *old(self),
            !old(self).names_view().contains(name@) ==> final(self).names_view() == old(
                self,
            ).names_view().push(name@) && id == old(self).names_view().len(),
            final(self).objects_view() == old(self).objects_view(),
            final(self).triples_view() == old(self).triples_view(),
    {
        let found = Self::find_in(&self.names, name);
        match found {
            Some(i) => {
                proof {
                    assert(old(self).names_view()[i as int] == name@);
                    assert(old(self).names_view().contains(name@));
                }
                i
            },
            None => {
                let id = self.names.len();
                self.names.push(str_to_string(name));
                proof {
                    assert(self.names_view() =~= old(self).names_view().push(name@));
                    assert(!old(self).names_view().contains(name@)) by {
                        if old(self).names_view().contains(name@) {
                            let w = choose|w: int|
                                0 <= w < old(self).names_view().len()
                                    && #[trigger] old(self).names_view()[w] == name@;
                            assert(old(self).names@[w]@ == name@);
                        }
                    }
                    assert forall|a: int, b: int|
                        0 <= a < b < self.names_view().len() implies self.names_view()[a]
                        != self.names_view()[b] by {
                        if b == old(self).names_view().len() {
                            assert(!old(self).names_view().contains(name@));
                            assert(old(self).names_view()[a] != name@);
                        } else {
                            assert(old(self).names_view()[a] != old(self).names_view()[b]);
                        }
                    }
                    assert(self.objects_view() == old(self).objects_view());
                    assert forall|kk: int| 0 <= kk < self.num_triples() implies (
                    #[trigger] self.triples@[kk]).subject < self.names_view().len()
                        && self.triples@[kk].predicate < self.names_view().len()
                        && self.triples@[kk].object < self.objects_view().len() by {
                        assert(self.triples@[kk] == old(self).triples@[kk]);
                        assert(old(self).names_view().len() < self.names_view().len());
                    }
                    assert(self.triples_view() =~= old(self).triples_view());
                    assert(self.wf());
                }
                id
            },
        }
    }

    /// Get-or-create the durable id of an object string.
    pub fn get_or_insert_object(&mut self, object: &str) -> (id: usize)
        requires
            old(self).wf(),
        ensures
            final(self).wf(),
            id < final(self).objects_view().len(),
            final(self).objects_view()[id as int] == object@,
            old(self).objects_view().contains(object@) ==> *final(self) == *old(self),
            !old(self).objects_view().contains(object@) ==> final(self).objects_view() == old(
                self,
            ).objects_view().push(object@) && id == old(self).objects_view().len(),
            final(self).names_view() == old(self).names_view(),
            final(self).triples_view() == old(self).triples_view(),
    {
        let found = Self::find_in(&self.objects, object);
        match found {
            Some(i) => {
                proof {
                    assert(old(self).objects_view()[i as int] == object@);
                    assert(old(self).objects_view().contains(object@));
                }
                i
            },
            None => {
                let id = self.objects.len();
                self.objects.push(str_to_string(object));
                proof {
                    assert(self.objects_view() =~= old(self).objects_view().push(object@));
                    assert(!old(self).objects_view().contains(object@)) by {
                        if old(self).objects_view().contains(object@) {
                            let w = choose|w: int|
                                0 <= w < old(self).objects_view().len()
                                    && #[trigger] old(self).objects_view()[w] == object@;
                            assert(old(self).objects@[w]@ == object@);
                        }
                    }
                    assert forall|a: int, b: int|
                        0 <= a < b < self.objects_view().len() implies self.objects_view()[a]
                        != self.objects_view()[b] by {
                        if b == old(self).objects_view().len() {
                            assert(old(self).objects_view()[a] != object@);
                        } else {
                            assert(old(self).objects_view()[a] != old(self).objects_view()[b]);
                        }
                    }
                    assert(self.names_view() == old(self).names_view());
                    assert forall|kk: int| 0 <= kk < self.num_triples() implies (
                    #[trigger] self.triples@[kk]).subject < self.names_view().len()
                        && self.triples@[kk].predicate < self.names_view().len()
                        && self.triples@[kk].object < self.objects_view().len() by {
                        assert(self.triples@[kk] == old(self).triples@[kk]);
                    }
                    assert(self.triples_view() =~= old(self).triples_view());
                    assert(self.wf());
                }
                id
            },
        }
    }

    /// Append one relation row.
    fn insert_triple(&mut self, subject_id: usize, predicate_id: usize, object_id: usize)
        requires
            old(self).wf(),
            subject_id < old(self).names_view().len(),
            predicate_id < old(self).names_view().len(),
            object_id < old(self).objects_view().len(),
        ensures
            final(self).wf(),
            final(self).names_view() == old(self).names_view(),
            final(self).objects_view() == old(self).objects_view(),
            final(self).triples_view() == old(self).triples_view().push(
                (
                    old(self).names_view()[subject_id as int],
                    old(self).names_view()[predicate_id as int],
                    old(self).objects_view()[object_id as int],
                ),
            ),
    {
        self.triples.push(Triple { subject: subject_id, predicate: predicate_id, object: object_id });
        proof {
            assert(self.triples_view() =~= old(self).triples_view().push(
                (
                    old(self).names_view()[subject_id as int],
                    old(self).names_view()[predicate_id as int],
                    old(self).objects_view()[object_id as int],
                ),
            ));
        }
    }
}

/// Interning idempotence: one string has one durable id.  Together with the
/// contract of `get_or_insert_name` -- an already-interned string leaves the
/// store untouched and returns its id -- inserting the same identifier N
/// times yields one id and N no-op lookups.
pub proof fn lemma_intern_one_id(st: &TripleStore, s: Seq<char>, i: int, j: int)
    requires
        st.wf(),
        0 <= i < st.names_view().len(),
        0 <= j < st.names_view().len(),
        st.names_view()[i] == s,
        st.names_view()[j] == s,
    ensures
        i == j,
{
}

/// Interning idempotence for object strings: one string has one durable id,
/// exactly as `lemma_intern_one_id` states for identifiers.
pub proof fn lemma_intern_one_object_id(st: &TripleStore, s: Seq<char>, i: int, j: int)
    requires
        st.wf(),
        0 <= i < st.objects_view().len(),
        0 <= j < st.objects_view().len(),
        st.objects_view()[i] == s,
        st.objects_view()[j] == s,
    ensures
        i == j,
{
}

/// The triples of row `i` of a subject, in object order.
pub open spec fn row_triples(s: &Subject, i: int) -> Seq<(Seq<char>, Seq<char>, Seq<char>)> {
    s.objs_view(i).map_values(|o: Seq<char>| (s.name_view(), s.pred_view(i), o))
}

/// The triples of the first `upto` rows of a subject, flattened in order.
pub open spec fn rows_of(s: &Subject, upto: int) -> Seq<(Seq<char>, Seq<char>, Seq<char>)>
    decreases upto,
{
    if upto <= 0 {
        Seq::<(Seq<char>, Seq<char>, Seq<char>)>::empty()
    } else {
        rows_of(s, upto - 1) + row_triples(s, upto - 1)
    }
}

/// The whole flattened relation a subject denotes: one row per object.
pub open spec fn subject_rows(s: &Subject) -> Seq<(Seq<char>, Seq<char>, Seq<char>)> {
    rows_of(s, s.num_pairs())
}

/// The flattened relation of a longer row prefix extends that of a shorter
/// one unchanged.
pub proof fn lemma_rows_stable(s: &Subject, a: int, b: int)
    requires
        0 <= a <= b,
    ensures
        rows_of(s, a).len() <= rows_of(s, b).len(),
        forall|p: int|
            0 <= p < rows_of(s, a).len() ==> #[trigger] rows_of(s, b)[p] == rows_of(s, a)[p],
    decreases b - a,
{
    if a < b {
        lemma_rows_stable(s, a, b - 1);
        assert(rows_of(s, b) == rows_of(s, b - 1) + row_triples(s, b - 1));
        assert forall|p: int| 0 <= p < rows_of(s, a).len() implies #[trigger] rows_of(s, b)[p]
            == rows_of(s, a)[p] by {
            assert(rows_of(s, b)[p] == rows_of(s, b - 1)[p]);
        }
    }
}

/// Membership in the flattened relation is membership in the subject's map.
pub proof fn lemma_rows_membership(s: &Subject, upto: int)
    requires
        upto <= s.num_pairs(),
    ensures
        forall|t: (Seq<char>, Seq<char>, Seq<char>)|
            rows_of(s, upto).contains(t) <==> (exists|i: int, a: int|
                0 <= i < upto && 0 <= a < s.objs_view(i).len() && t == (
                    s.name_view(),
                    s.pred_view(i),
                    s.objs_view(i)[a],
                )),
    decreases upto,
{
    if upto > 0 {
        lemma_rows_membership(s, upto - 1);
        assert forall|t: (Seq<char>, Seq<char>, Seq<char>)| rows_of(s, upto).contains(
            t,
        ) implies (exists|i: int, a: int|
            0 <= i < upto && 0 <= a < s.objs_view(i).len() && t == (
                s.name_view(),
                s.pred_view(i),
                s.objs_view(i)[a],
            )) by {
            let k = choose|k: int| 0 <= k < rows_of(s, upto).len() && rows_of(s, upto)[k] == t;
            if k < rows_of(s, upto - 1).len() {
                assert(rows_of(s, upto - 1)[k] == t);
                assert(rows_of(s, upto - 1).contains(t));
            } else {
                let a = k - rows_of(s, upto - 1).len();
                assert(row_triples(s, upto - 1)[a] == t);
                assert(t == (s.name_view(), s.pred_view(upto - 1), s.objs_view(upto - 1)[a]));
            }
        }
        assert forall|t: (Seq<char>, Seq<char>, Seq<char>)|
            (exists|i: int, a: int|
                0 <= i < upto && 0 <= a < s.objs_view(i).len() && t == (
                    s.name_view(),
                    s.pred_view(i),
                    s.objs_view(i)[a],
                )) implies rows_of(s, upto).contains(t) by {
            let (i, a) = choose|i: int, a: int|
                0 <= i < upto && 0 <= a < s.objs_view(i).len() && t == (
                    s.name_view(),
                    s.pred_view(i),
                    s.objs_view(i)[a],
                );
            if i < upto - 1 {
                assert(rows_of(s, upto - 1).contains(t));
                let k = choose|k: int|
                    0 <= k < rows_of(s, upto - 1).len() && #[trigger] rows_of(s, upto - 1)[k] == t;
                assert(rows_of(s, upto)[k] == t);
            } else {
                assert(row_triples(s, upto - 1)[a] == t);
                assert(rows_of(s, upto)[rows_of(s, upto - 1).len() + a] == t);
            }
        }
    }
}

impl TripleStore {
    /// Insert a completed subject: intern its name, every predicate and every
    /// object, and append one relation row per (predicate, object) pair.
    pub fn insert(&mut self, subject: &Subject)
        requires
            old(self).wf(),
            subject.wf(),
        ensures
            final(self).wf(),
            final(self).triples_view() == old(self).triples_view() + subject_rows(subject),
    {
        let name_text = subject.name().to_text();
        let subject_id = self.get_or_insert_name(name_text.as_str());
        let pairs = subject.predicate_object_pairs();
        let n = pairs.len();
        let ghost start = self.triples_view();
        proof {
            assert(start + rows_of(subject, 0) =~= start);
        }
        for i in 0..n
            invariant
                self.wf(),
                subject.wf(),
                n == subject.num_pairs(),
                pairs@.len() == n,
                forall|q: int|
                    0 <= q < n ==> (#[trigger] pairs@[q]).0@ == subject.pred_view(q)
                        && pairs@[q].1@.map_values(|o: String| o@) == subject.objs_view(q),
                subject_id < self.names_view().len(),
                self.names_view()[subject_id as int] == subject.name_view(),
                self.triples_view() == start + rows_of(subject, i as int),
        {
            let predicate_id = self.get_or_insert_name(pairs[i].0.as_str());
            let row = &pairs[i].1;
            let m = row.len();
            let ghost row_start = self.triples_view();
            proof {
                assert(row_triples(subject, i as int).take(0) =~= Seq::<
                    (Seq<char>, Seq<char>, Seq<char>),
                >::empty());
                assert(row_start + row_triples(subject, i as int).take(0) =~= row_start);
            }
            for j in 0..m
                invariant
                    self.wf(),
                    subject.wf(),
                    0 <= i < subject.num_pairs(),
                    pairs@.len() == subject.num_pairs(),
                    forall|q: int|
                        0 <= q < subject.num_pairs() ==> (#[trigger] pairs@[q]).0@
                            == subject.pred_view(q) && pairs@[q].1@.map_values(|o: String| o@)
                            == subject.objs_view(q),
                    row@.map_values(|o: String| o@) == subject.objs_view(i as int),
                    m == subject.objs_view(i as int).len(),
                    subject_id < self.names_view().len(),
                    self.names_view()[subject_id as int] == subject.name_view(),
                    predicate_id < self.names_view().len(),
                    self.names_view()[predicate_id as int] == subject.pred_view(i as int),
                    self.triples_view() == row_start + row_triples(subject, i as int).take(j as int),
                decreases m - j,
            {
                let object_id = self.get_or_insert_object(row[j].as_str());
                self.insert_triple(subject_id, predicate_id, object_id);
                proof {
                    assert(row_triples(subject, i as int)[j as int] == (
                        subject.name_view(),
                        subject.pred_view(i as int),
                        subject.objs_view(i as int)[j as int],
                    ));
                    assert(row_triples(subject, i as int).take(j as int).push(
                        row_triples(subject, i as int)[j as int],
                    ) =~= row_triples(subject, i as int).take(j as int + 1));
                }
            }
            proof {
                assert(row_triples(subject, i as int).take(m as int) =~= row_triples(
                    subject,
                    i as int,
                ));
                assert(row_start + row_triples(subject, i as int) =~= start + rows_of(
                    subject,
                    i as int + 1,
                ));
            }
        }
        proof {
            assert(rows_of(subject, n as int) == subject_rows(subject));
        }
    }

    /// Every distinct subject identifier in the relation, in first-appearance
    /// order.
    pub fn query_all_subject_names(&self) -> (r: Vec<RdfName>)
        requires
            self.wf(),
        ensures
            forall|i: int, j: int| 0 <= i < j < r@.len() ==> (#[trigger] r@[i])@ != (
            #[trigger] r@[j])@,
            forall|i: int| 0 <= i < r@.len() ==> self.stores_subject((#[trigger] r@[i])@),
            forall|kk: int|
                0 <= kk < self.num_triples() ==> appears_name(
                    r@,
                    (#[trigger] self.triples_view()[kk]).0,
                ),
    {
        let mut r: Vec<RdfName> = Vec::new();
        let n = self.triples.len();
        for k in 0..n
            invariant
                self.wf(),
                n == self.num_triples(),
                forall|i: int, j: int| 0 <= i < j < r@.len() ==> (#[trigger] r@[i])@ != (
                #[trigger] r@[j])@,
                forall|i: int| 0 <= i < r@.len() ==> self.stores_subject((#[trigger] r@[i])@),
                forall|kk: int|
                    0 <= kk < k ==> appears_name(r@, (#[trigger] self.triples_view()[kk]).0),
        {
            let ghost rb = r@;
            proof {
                assert(self.triples@[k as int].subject < self.names@.len());
            }
            let name = &self.names[self.triples[k].subject];
            proof {
                assert(name@ == self.names_view()[self.triples@[k as int].subject as int]);
                assert(name@ == self.triples_view()[k as int].0);
            }
            let mut present = false;
            let rn = r.len();
            for i in 0..rn
                invariant
                    rn == r@.len(),
                    rb == r@,
                    present <==> exists|a: int| 0 <= a < i && (#[trigger] r@[a])@ == name@,
            {
                if r[i].to_text() == *name {
                    present = true;
                }
            }
            if !present {
                proof {
                    assert(!appears_name(rb, name@));
                }
                r.push(RdfName::new(name.clone()));
                proof {
                    assert(r@ =~= rb.push(r@[r@.len() - 1]));
                    assert((r@[r@.len() - 1])@ == name@);
                    assert(self.stores_subject(name@));
                    assert forall|a: int, b: int| 0 <= a < b < r@.len() implies (
                    #[trigger] r@[a])@ != (#[trigger] r@[b])@ by {
                        if b < r@.len() - 1 {
                            assert(r@[a] == rb[a] && r@[b] == rb[b]);
                        } else {
                            assert(r@[a] == rb[a]);
                            assert(!appears_name(rb, name@));
                        }
                    }
                    assert forall|i: int| 0 <= i < r@.len() implies self.stores_subject((
                    #[trigger] r@[i])@) by {
                        if i < r@.len() - 1 {
                            assert(r@[i] == rb[i]);
                        }
                    }
                    assert forall|kk: int| 0 <= kk <= k implies appears_name(
                        r@,
                        (#[trigger] self.triples_view()[kk]).0,
                    ) by {
                        if kk < k {
                            let w = choose|w: int|
                                0 <= w < rb.len() && (#[trigger] rb[w])@ == self.triples_view()[
                                    kk
                                ].0;
                            assert((r@[w])@ == self.triples_view()[kk].0);
                        } else {
                            assert((r@[r@.len() - 1])@ == self.triples_view()[k as int].0);
                        }
                    }
                }
            } else {
                proof {
                    assert(appears_name(rb, name@));
                    assert forall|kk: int| 0 <= kk <= k implies appears_name(
                        r@,
                        (#[trigger] self.triples_view()[kk]).0,
                    ) by {
                        if kk == k {
                            assert(appears_name(r@, name@));
                        }
                    }
                }
            }
        }
        r
    }

    /// Whether some relation row carries subject identifier `x`.
    pub open spec fn stores_subject(&self, x: Seq<char>) -> bool {
        exists|k: int| 0 <= k < self.num_triples() && (#[trigger] self.triples_view()[k]).0 == x
    }

    /// Whether the relation holds the row (x, p, o).
    pub open spec fn stores_triple(&self, x: Seq<char>, p: Seq<char>, o: Seq<char>) -> bool {
        exists|k: int| 0 <= k < self.num_triples() && #[trigger] self.triples_view()[k] == (x, p, o)
    }

    /// Reconstruct the subject stored under `subject_name`, or nothing when
    /// no relation row carries it.  The reconstructed subject holds exactly
    /// the (predicate, object) pairs of that subject's rows.
    pub fn query(&self, subject_name: &RdfName) -> (r: Option<Subject>)
        requires
            self.wf(),
        ensures
            match r {
                Some(s) => s.wf() && s.name_view() == subject_name@ && self.stores_subject(
                    subject_name@,
                ) && (forall|p: Seq<char>, o: Seq<char>|
                    holds_pair(&s, p, o) <==> self.stores_triple(subject_name@, p, o)),
                None => !self.stores_subject(subject_name@),
            },
    {
        let target = subject_name.to_text();
        let mut subj = Subject::new(RdfName::new(subject_name.to_text()));
        let mut found = false;
        let n = self.triples.len();
        proof {
            assert forall|p: Seq<char>, o: Seq<char>| !holds_pair(&subj, p, o) by {
                assert(!subj.has_pred(p));
            }
        }
        for k in 0..n
            invariant
                self.wf(),
                subj.wf(),
                n == self.num_triples(),
                target@ == subject_name@,
                subj.name_view() == subject_name@,
                found <==> exists|kk: int|
                    0 <= kk < k && (#[trigger] self.triples_view()[kk]).0 == subject_name@,
                forall|p: Seq<char>, o: Seq<char>|
                    #![trigger holds_pair(&subj, p, o)]
                    holds_pair(&subj, p, o) <==> (exists|kk: int|
                        0 <= kk < k && #[trigger] self.triples_view()[kk] == (
                            subject_name@,
                            p,
                            o,
                        )),
        {
            let ghost before = subj;
            proof {
                assert(self.triples@[k as int].subject < self.names@.len());
                assert(self.triples@[k as int].predicate < self.names@.len());
                assert(self.triples@[k as int].object < self.objects@.len());
                assert(self.names@[self.triples@[k as int].subject as int]@
                    == self.triples_view()[k as int].0);
            }
            if self.names[self.triples[k].subject] == target {
                found = true;
                let pred = self.names[self.triples[k].predicate].clone();
                let obj = self.objects[self.triples[k].object].clone();
                let ghost predv = pred@;
                let ghost objv = obj@;
                proof {
                    assert(predv == self.triples_view()[k as int].1);
                    assert(objv == self.triples_view()[k as int].2);
                }
                subj.add(RdfName::new(pred), obj);
                proof {
                    assert forall|p: Seq<char>, o: Seq<char>|
                        #![trigger holds_pair(&subj, p, o)]
                        holds_pair(&subj, p, o) <==> (holds_pair(&before, p, o) || (p == predv && o
                            == objv)) by {
                        if p == predv {
                            assert(subj.pairs_map().contains_key(p));
                            assert(subj.has_pred(p));
                            assert(subj.pairs_map() == before.pairs_map().insert(
                                predv,
                                (if before.has_pred(predv) {
                                    before.pairs_map()[predv]
                                } else {
                                    Set::<Seq<char>>::empty()
                                }).insert(objv),
                            ));
                            assert(subj.pairs_map()[p] == (if before.has_pred(predv) {
                                before.pairs_map()[predv]
                            } else {
                                Set::<Seq<char>>::empty()
                            }).insert(objv));
                            if before.has_pred(predv) {
                                assert(before.pairs_map().contains_key(p));
                            } else {
                                assert(subj.pairs_map()[p] == Set::<Seq<char>>::empty().insert(
                                    objv,
                                ));
                            }
                        } else {
                            if subj.has_pred(p) {
                                let i = choose|i: int|
                                    0 <= i < subj.num_pairs() && #[trigger] subj.pred_view(i) == p;
                                if i < before.num_pairs() {
                                    assert(before.pred_view(i) == p);
                                    assert(before.has_pred(p));
                                } else {
                                    assert(subj.pred_view(i) == predv);
                                }
                            }
                            if before.has_pred(p) {
                                let i = choose|i: int|
                                    0 <= i < before.num_pairs() && #[trigger] before.pred_view(i)
                                        == p;
                                assert(subj.pred_view(i) == p);
                                assert(subj.has_pred(p));
                                assert(subj.pairs_map()[p] == before.pairs_map()[p]);
                            }
                        }
                    }
                    assert forall|p: Seq<char>, o: Seq<char>|
                        #![trigger holds_pair(&subj, p, o)]
                        holds_pair(&subj, p, o) <==> (exists|kk: int|
                            0 <= kk < k + 1 && #[trigger] self.triples_view()[kk] == (
                                subject_name@,
                                p,
                                o,
                            )) by {
                        if holds_pair(&subj, p, o) {
                            if p == predv && o == objv {
                                assert(self.triples_view()[k as int] == (subject_name@, p, o));
                            }
                        }
                    }
                    assert(self.triples_view()[k as int].0 == subject_name@);
                }
            } else {
                proof {
                    assert(self.triples_view()[k as int].0 != subject_name@);
                    assert forall|p: Seq<char>, o: Seq<char>|
                        #![trigger holds_pair(&subj, p, o)]
                        holds_pair(&subj, p, o) <==> (exists|kk: int|
                            0 <= kk < k + 1 && #[trigger] self.triples_view()[kk] == (
                                subject_name@,
                                p,
                                o,
                            )) by {}
                }
            }
        }
        if found {
            Some(subj)
        } else {
            None
        }
    }
}

/// Whether subject `s` carries object `o` under predicate `p`.
pub open spec fn holds_pair(s: &Subject, p: Seq<char>, o: Seq<char>) -> bool {
    s.has_pred(p) && s.pairs_map()[p].contains(o)
}

/// Whether an identifier with text `x` occurs in `r`.
pub open spec fn appears_name(r: Seq<RdfName>, x: Seq<char>) -> bool {
    exists|i: int| 0 <= i < r.len() && (#[trigger] r[i])@ == x
}

} // verus!
