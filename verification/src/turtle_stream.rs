//! The stream assembler: a stateful accumulator that consumes parsed line
//! fragments in order, resolves prefixed names, and emits a completed subject
//! exactly when a terminating fragment closes a block.

use crate::data::Pre;
use crate::data::TriplesError;
use crate::data::RdfName;
use crate::data::Subject;
use crate::data::str_to_string;
use crate::resolver::PrefixTable;
use crate::resolver::resolve_name;
use crate::turtle::LineParser;
use crate::turtle::spec_parse_line;
use vstd::prelude::*;

verus! {

/// The spec-level image of one parsed line fragment: every name as a plain
/// character sequence.
pub enum ParsedLineV {
    Prefix(Seq<char>, Seq<char>),
    Subject(Option<Seq<char>>, Seq<char>),
    PredObj(Option<Seq<char>>, Seq<char>, Option<Seq<char>>, Seq<char>, bool),
    PredObjTerm(Option<Seq<char>>, Seq<char>, Option<Seq<char>>, Seq<char>),
    ContinueObj(Option<Seq<char>>, Seq<char>, bool),
    SubjectPredObj(
        Option<Seq<char>>,
        Seq<char>,
        Option<Seq<char>>,
        Seq<char>,
        Option<Seq<char>>,
        Seq<char>,
        bool,
    ),
    SubjectPredObjTerm(
        Option<Seq<char>>,
        Seq<char>,
        Option<Seq<char>>,
        Seq<char>,
        Option<Seq<char>>,
        Seq<char>,
    ),
}

/// The view of an optional prefix mnemonic.
pub open spec fn opt_pre_view(o: Option<Pre>) -> Option<Seq<char>> {
    match o {
        Some(p) => Some(p@),
        None => None,
    }
}

/// One line of input, classified.  A predicate/object fragment carries a
/// flag saying whether more objects follow on later lines; the `Term`
/// variants close the whole block.
#[derive(Debug, Clone, PartialEq)]
pub enum ParsedLine {
    /// `@prefix mnemonic: <identifier> .`
    Prefix(Pre, RdfName),
    /// A subject head standing alone on its line.
    Subject(Option<Pre>, RdfName),
    /// A predicate/object pair; the flag says more objects follow.
    PredObj(Option<Pre>, RdfName, Option<Pre>, String, bool),
    /// A predicate/object pair that closes the block.
    PredObjTerm(Option<Pre>, RdfName, Option<Pre>, String),
    /// A bare object continuing a multi-valued list; the flag says more
    /// objects follow.
    ContinueObj(Option<Pre>, String, bool),
    /// A whole subject/predicate/object statement on one line; the flag says
    /// more objects follow.
    SubjectPredObj(Option<Pre>, RdfName, Option<Pre>, RdfName, Option<Pre>, String, bool),
    /// A whole statement on one line, closing its block at once.
    SubjectPredObjTerm(Option<Pre>, RdfName, Option<Pre>, RdfName, Option<Pre>, String),
}

impl View for ParsedLine {
    type V = ParsedLineV;

    open spec fn view(&self) -> ParsedLineV {
        match self {
            ParsedLine::Prefix(p, u) => ParsedLineV::Prefix(p@, u@),
            ParsedLine::Subject(p, n) => ParsedLineV::Subject(opt_pre_view(*p), n@),
            ParsedLine::PredObj(p, n, op, o, more) => ParsedLineV::PredObj(
                opt_pre_view(*p),
                n@,
                opt_pre_view(*op),
                o@,
                *more,
            ),
            ParsedLine::PredObjTerm(p, n, op, o) => ParsedLineV::PredObjTerm(
                opt_pre_view(*p),
                n@,
                opt_pre_view(*op),
                o@,
            ),
            ParsedLine::ContinueObj(op, o, more) => ParsedLineV::ContinueObj(
                opt_pre_view(*op),
                o@,
                *more,
            ),
            ParsedLine::SubjectPredObj(sp, s, pp, n, op, o, more) => ParsedLineV::SubjectPredObj(
                opt_pre_view(*sp),
                s@,
                opt_pre_view(*pp),
                n@,
                opt_pre_view(*op),
                o@,
                *more,
            ),
            ParsedLine::SubjectPredObjTerm(sp, s, pp, n, op, o) => ParsedLineV::SubjectPredObjTerm(
                opt_pre_view(*sp),
                s@,
                opt_pre_view(*pp),
                n@,
                opt_pre_view(*op),
                o@,
            ),
        }
    }
}

/// The spec-level image of an assembler state.
pub enum StateV {
    SubjectLoading,
    PredicateLoading,
    ObjectLoading(Option<Seq<char>>, Seq<char>),
}

/// The spec-level image of an in-progress or emitted subject.
pub struct SubjV {
    pub name: Seq<char>,
    pub pairs: Map<Seq<char>, Set<Seq<char>>>,
}

/// The spec-level image of a whole assembler: finite state, prefix bindings,
/// and the subject under construction.
pub struct AsmV {
    pub state: StateV,
    pub prefixes: Map<Seq<char>, Seq<char>>,
    pub current: Option<SubjV>,
}

/// Why one step of the assembler was refused.
pub enum StepErr {
    /// A prefixed name used a mnemonic with no binding; carries the mnemonic
    /// and the name that used it.
    Unresolvable(Seq<char>, Seq<char>),
    /// A predicate/object fragment with no subject in progress.
    NoSubject,
    /// A subject head, combined statement, or prefix declaration while a
    /// subject is open.
    SubjectOpen,
    /// A bare continuation object with no subject in progress.
    ContinuationWithoutSubject,
    /// A bare continuation object while no object list is open.
    ContinuationWithoutList,
    /// A predicate/object fragment while an object list is open.
    PredicateInObjectList,
}

/// The view of a possibly missing subject.
pub open spec fn subj_view(s: &Subject) -> SubjV {
    SubjV { name: s.name_view(), pairs: s.pairs_map() }
}

/// The view of the assembler's output slot.
pub open spec fn out_view(o: &Option<Subject>) -> Option<SubjV> {
    match o {
        Some(s) => Some(subj_view(s)),
        None => None,
    }
}

/// The mnemonic inside an optional prefix, or the empty sequence.
pub open spec fn pre_or_empty(p: Option<Seq<char>>) -> Seq<char> {
    match p {
        Some(x) => x,
        None => Seq::<char>::empty(),
    }
}

/// Record one resolved object under one resolved predicate.
pub open spec fn add_pair(s: SubjV, pi: Seq<char>, oi: Seq<char>) -> SubjV {
    SubjV {
        name: s.name,
        pairs: s.pairs.insert(
            pi,
            (if s.pairs.contains_key(pi) {
                s.pairs[pi]
            } else {
                Set::<Seq<char>>::empty()
            }).insert(oi),
        ),
    }
}

/// One step of the stream assembler: what one fragment does to the state,
/// which subject (if any) it emits, and when it is refused instead.  This is
/// the transition table of the state machine, written out in full.  A prefix
/// declaration is accepted only between closed blocks: while a subject is
/// open -- in either of the two collecting states -- it is refused, which is
/// what keeps resolution strictly at the point of use.
pub open spec fn spec_step(m: AsmV, f: ParsedLineV) -> Result<(AsmV, Option<SubjV>), StepErr> {
    match f {
        ParsedLineV::Prefix(p, u) => match m.state {
            StateV::SubjectLoading => Ok(
                (AsmV { state: StateV::SubjectLoading, prefixes: m.prefixes.insert(p, u), current: m.current }, None),
            ),
            _ => Err(StepErr::SubjectOpen),
        },
        ParsedLineV::Subject(pre, n) => match m.state {
            StateV::SubjectLoading => match crate::resolver::spec_resolve(pre, n, m.prefixes) {
                Some(iri) => Ok(
                    (
                        AsmV {
                            state: StateV::PredicateLoading,
                            prefixes: m.prefixes,
                            current: Some(SubjV { name: iri, pairs: Map::empty() }),
                        },
                        None,
                    ),
                ),
                None => Err(StepErr::Unresolvable(pre_or_empty(pre), n)),
            },
            _ => Err(StepErr::SubjectOpen),
        },
        ParsedLineV::PredObj(pp, pn, op, o, more) => match m.state {
            StateV::SubjectLoading => Err(StepErr::NoSubject),
            StateV::PredicateLoading => spec_step_pair(m, pp, pn, op, o, more),
            StateV::ObjectLoading(_, _) => Err(StepErr::PredicateInObjectList),
        },
        ParsedLineV::PredObjTerm(pp, pn, op, o) => match m.state {
            StateV::SubjectLoading => Err(StepErr::NoSubject),
            StateV::PredicateLoading => spec_step_pair_term(m, pp, pn, op, o),
            StateV::ObjectLoading(_, _) => Err(StepErr::PredicateInObjectList),
        },
        ParsedLineV::ContinueObj(op, o, more) => match m.state {
            StateV::SubjectLoading => Err(StepErr::ContinuationWithoutSubject),
            StateV::PredicateLoading => Err(StepErr::ContinuationWithoutList),
            StateV::ObjectLoading(pp, pn) => if more {
                spec_step_pair(m, pp, pn, op, o, true)
            } else {
                spec_step_pair_term(m, pp, pn, op, o)
            },
        },
        ParsedLineV::SubjectPredObj(sp, sn, pp, pn, op, o, more) => match m.state {
            StateV::SubjectLoading => match crate::resolver::spec_resolve(sp, sn, m.prefixes) {
                Some(iri) => spec_step_pair(
                    AsmV {
                        state: StateV::PredicateLoading,
                        prefixes: m.prefixes,
                        current: Some(SubjV { name: iri, pairs: Map::empty() }),
                    },
                    pp,
                    pn,
                    op,
                    o,
                    more,
                ),
                None => Err(StepErr::Unresolvable(pre_or_empty(sp), sn)),
            },
            _ => Err(StepErr::SubjectOpen),
        },
        ParsedLineV::SubjectPredObjTerm(sp, sn, pp, pn, op, o) => match m.state {
            StateV::SubjectLoading => match crate::resolver::spec_resolve(sp, sn, m.prefixes) {
                Some(iri) => spec_step_pair_term(
                    AsmV {
                        state: StateV::PredicateLoading,
                        prefixes: m.prefixes,
                        current: Some(SubjV { name: iri, pairs: Map::empty() }),
                    },
                    pp,
                    pn,
                    op,
                    o,
                ),
                None => Err(StepErr::Unresolvable(pre_or_empty(sp), sn)),
            },
            _ => Err(StepErr::SubjectOpen),
        },
    }
}

/// Resolve and record one predicate/object pair on the open subject; with
/// `more` set, an object list opens on the pending predicate.
pub open spec fn spec_step_pair(
    m: AsmV,
    pp: Option<Seq<char>>,
    pn: Seq<char>,
    op: Option<Seq<char>>,
    o: Seq<char>,
    more: bool,
) -> Result<(AsmV, Option<SubjV>), StepErr> {
    match crate::resolver::spec_resolve(pp, pn, m.prefixes) {
        None => Err(StepErr::Unresolvable(pre_or_empty(pp), pn)),
        Some(pi) => match crate::resolver::spec_resolve(op, o, m.prefixes) {
            None => Err(StepErr::Unresolvable(pre_or_empty(op), o)),
            Some(oi) => match m.current {
                None => Err(StepErr::NoSubject),
                Some(s) => Ok(
                    (
                        AsmV {
                            state: if more {
                                StateV::ObjectLoading(pp, pn)
                            } else {
                                StateV::PredicateLoading
                            },
                            prefixes: m.prefixes,
                            current: Some(add_pair(s, pi, oi)),
                        },
                        None,
                    ),
                ),
            },
        },
    }
}

/// Resolve and record one final predicate/object pair, emit the completed
/// subject, and return to the initial state.
pub open spec fn spec_step_pair_term(
    m: AsmV,
    pp: Option<Seq<char>>,
    pn: Seq<char>,
    op: Option<Seq<char>>,
    o: Seq<char>,
) -> Result<(AsmV, Option<SubjV>), StepErr> {
    match crate::resolver::spec_resolve(pp, pn, m.prefixes) {
        None => Err(StepErr::Unresolvable(pre_or_empty(pp), pn)),
        Some(pi) => match crate::resolver::spec_resolve(op, o, m.prefixes) {
            None => Err(StepErr::Unresolvable(pre_or_empty(op), o)),
            Some(oi) => match m.current {
                None => Err(StepErr::NoSubject),
                Some(s) => Ok(
                    (
                        AsmV {
                            state: StateV::SubjectLoading,
                            prefixes: m.prefixes,
                            current: None,
                        },
                        Some(add_pair(s, pi, oi)),
                    ),
                ),
            },
        },
    }
}


/// The assembler's finite state: waiting for a subject head, collecting
/// predicate/object lines, or inside a multi-valued object list (holding the
/// pending prefix and predicate).
#[derive(Debug, Clone, PartialEq)]
pub enum ParserState {
    SubjectLoading,
    PredicateLoading,
    ObjectLoading(Option<Pre>, RdfName),
}

impl View for ParserState {
    type V = StateV;

    open spec fn view(&self) -> StateV {
        match self {
            ParserState::SubjectLoading => StateV::SubjectLoading,
            ParserState::PredicateLoading => StateV::PredicateLoading,
            ParserState::ObjectLoading(p, n) => StateV::ObjectLoading(opt_pre_view(*p), n@),
        }
    }
}

/// Which library error reports which refused step.
pub open spec fn err_matches(e: TriplesError, k: StepErr) -> bool {
    match k {
        StepErr::Unresolvable(p, n) => (match e {
            TriplesError::UnresolvableURIPrefix { prefix_name, name } => prefix_name@ == p && name@
                == n,
            _ => false,
        }),
        StepErr::NoSubject => e matches TriplesError::NoSubjectDeclaired,
        StepErr::SubjectOpen => e matches TriplesError::PreviousSubjectNotComplete,
        StepErr::ContinuationWithoutSubject => e
            matches TriplesError::ObjectContinuationWithoutSubject,
        StepErr::ContinuationWithoutList => e matches TriplesError::ObjectContinuationWithoutList,
        StepErr::PredicateInObjectList => e matches TriplesError::PredicateWhileObjectListOpen,
    }
}

/// The stream assembler.  One instance serves one logical input stream; all
/// state -- prefix table, finite state, subject in progress -- is held by the
/// instance.
pub struct TurtleStream {
    state: ParserState,
    parser: LineParser,
    prefixes: PrefixTable,
    current_subject: Option<Subject>,
}

impl TurtleStream {
    /// The assembler's visible state.
    pub closed spec fn model(&self) -> AsmV {
        AsmV {
            state: self.state@,
            prefixes: self.prefixes.map_view(),
            current: out_view(&self.current_subject),
        }
    }

    /// Structural invariant: the prefix table and the open subject are well
    /// formed, and a subject is open exactly outside the initial state.
    pub closed spec fn wf(&self) -> bool {
        &&& self.prefixes.wf()
        &&& (match self.current_subject {
            Some(s) => s.wf(),
            None => true,
        })
        &&& ((self.state matches ParserState::SubjectLoading) <==> (self.current_subject is None))
    }

    pub fn new() -> (r: Self)
        ensures
            r.wf(),
            r.model().state is SubjectLoading,
            r.model().prefixes =~= Map::<Seq<char>, Seq<char>>::empty(),
            r.model().current is None,
    {
        TurtleStream {
            state: ParserState::SubjectLoading,
            parser: LineParser::new(),
            prefixes: PrefixTable::new(),
            current_subject: None,
        }
    }

    /// A copy of the current finite state, for diagnostics.
    pub fn get_state(&self) -> (r: ParserState)
        ensures
            r@ == self.model().state,
    {
        match &self.state {
            ParserState::SubjectLoading => ParserState::SubjectLoading,
            ParserState::PredicateLoading => ParserState::PredicateLoading,
            ParserState::ObjectLoading(p, n) => ParserState::ObjectLoading(
                match p {
                    Some(q) => Some(Pre::new(str_to_string(q.as_str()))),
                    None => None,
                },
                RdfName::new(n.to_text()),
            ),
        }
    }

    /// Resolve one predicate/object pair and record it on the open subject;
    /// a terminal pair emits the subject and closes the block.
    fn handle_pair(
        &mut self,
        pp: Option<Pre>,
        pn: RdfName,
        op: Option<Pre>,
        o: String,
        terminal: bool,
        more: bool,
    ) -> (r: Result<Option<Subject>, TriplesError>)
        requires
            old(self).wf(),
            !(old(self).current_subject is None),
        ensures
            final(self).wf(),
            ({
                let outcome = if terminal {
                    spec_step_pair_term(
                        old(self).model(),
                        opt_pre_view(pp),
                        pn@,
                        opt_pre_view(op),
                        o@,
                    )
                } else {
                    spec_step_pair(
                        old(self).model(),
                        opt_pre_view(pp),
                        pn@,
                        opt_pre_view(op),
                        o@,
                        more,
                    )
                };
                match outcome {
                    Ok(res) => r is Ok && final(self).model() == res.0 && (match r {
                        Ok(out) => out_view(&out) == res.1,
                        _ => false,
                    }),
                    Err(k) => final(self).model() == old(self).model() && (match r {
                        Err(e) => err_matches(e, k),
                        _ => false,
                    }),
                }
            }),
    {
        let ghost ppv = opt_pre_view(pp);
        let ghost pnv = pn@;
        let pi = match resolve_name(pp.as_ref(), pn.as_str(), &self.prefixes) {
            Ok(x) => x,
            Err(e) => {
                return Err(e);
            },
        };
        let oi = match resolve_name(op.as_ref(), o.as_str(), &self.prefixes) {
            Ok(x) => x,
            Err(e) => {
                return Err(e);
            },
        };
        let ghost piv = pi@;
        let ghost oiv = oi@;
        let taken = self.current_subject.take();
        let mut subj = match taken {
            Some(s) => s,
            None => {
                proof {
                    assert(false);
                }
                return Err(TriplesError::NoSubjectDeclaired);
            },
        };
        let ghost s0 = subj_view(&subj);
        subj.add(RdfName::new(pi), oi);
        proof {
            assert(subj_view(&subj) == add_pair(s0, piv, oiv));
        }
        if terminal {
            self.state = ParserState::SubjectLoading;
            Ok(Some(subj))
        } else {
            self.current_subject = Some(subj);
            if more {
                self.state = ParserState::ObjectLoading(pp, pn);
            } else {
                self.state = ParserState::PredicateLoading;
            }
            Ok(None)
        }
    }

    /// Resolve a whole one-line statement from the initial state; a terminal
    /// line emits its subject at once.
    fn handle_combined(
        &mut self,
        sp: Option<Pre>,
        sn: RdfName,
        pp: Option<Pre>,
        pn: RdfName,
        op: Option<Pre>,
        o: String,
        terminal: bool,
        more: bool,
    ) -> (r: Result<Option<Subject>, TriplesError>)
        requires
            old(self).wf(),
            old(self).model().state is SubjectLoading,
        ensures
            final(self).wf(),
            ({
                let f = if terminal {
                    ParsedLineV::SubjectPredObjTerm(
                        opt_pre_view(sp),
                        sn@,
                        opt_pre_view(pp),
                        pn@,
                        opt_pre_view(op),
                        o@,
                    )
                } else {
                    ParsedLineV::SubjectPredObj(
                        opt_pre_view(sp),
                        sn@,
                        opt_pre_view(pp),
                        pn@,
                        opt_pre_view(op),
                        o@,
                        more,
                    )
                };
                match spec_step(old(self).model(), f) {
                    Ok(res) => r is Ok && final(self).model() == res.0 && (match r {
                        Ok(out) => out_view(&out) == res.1,
                        _ => false,
                    }),
                    Err(k) => final(self).model() == old(self).model() && (match r {
                        Err(e) => err_matches(e, k),
                        _ => false,
                    }),
                }
            }),
    {
        let iri = match resolve_name(sp.as_ref(), sn.as_str(), &self.prefixes) {
            Ok(x) => x,
            Err(e) => {
                return Err(e);
            },
        };
        let pi = match resolve_name(pp.as_ref(), pn.as_str(), &self.prefixes) {
            Ok(x) => x,
            Err(e) => {
                return Err(e);
            },
        };
        let oi = match resolve_name(op.as_ref(), o.as_str(), &self.prefixes) {
            Ok(x) => x,
            Err(e) => {
                return Err(e);
            },
        };
        let ghost iriv = iri@;
        let ghost piv = pi@;
        let ghost oiv = oi@;
        let mut subj = Subject::new(RdfName::new(iri));
        let ghost s0 = subj_view(&subj);
        proof {
            assert(s0.pairs =~= Map::<Seq<char>, Set<Seq<char>>>::empty());
        }
        subj.add(RdfName::new(pi), oi);
        proof {
            assert(subj_view(&subj) == add_pair(s0, piv, oiv));
        }
        if terminal {
            self.state = ParserState::SubjectLoading;
            self.current_subject = None;
            Ok(Some(subj))
        } else {
            self.current_subject = Some(subj);
            if more {
                self.state = ParserState::ObjectLoading(pp, pn);
            } else {
                self.state = ParserState::PredicateLoading;
            }
            Ok(None)
        }
    }

    /// Load one line of input.  Returns a completed subject exactly on the
    /// line that closes a block, a no-op success otherwise, and an error for
    /// a line the grammar or the state machine refuses; a refused line leaves
    /// every part of the assembler unchanged.
    pub fn load(&mut self, line: &str) -> (r: Result<Option<Subject>, TriplesError>)
        requires
            old(self).wf(),
        ensures
            final(self).wf(),
            match spec_parse_line(line@) {
                None => final(self).model() == old(self).model() && (match r {
                    Err(TriplesError::ParseError { reason }) => reason@ == line@,
                    _ => false,
                }),
                Some(f) => match spec_step(old(self).model(), f) {
                    Ok(res) => r is Ok && final(self).model() == res.0 && (match r {
                        Ok(out) => out_view(&out) == res.1,
                        _ => false,
                    }),
                    Err(k) => final(self).model() == old(self).model() && (match r {
                        Err(e) => err_matches(e, k),
                        _ => false,
                    }),
                },
            },
    {
        let parsed = match self.parser.parse(line) {
            Ok(p) => p,
            Err(e) => {
                return Err(e);
            },
        };
        let in_subject_loading = matches!(&self.state, ParserState::SubjectLoading);
        let in_predicate_loading = matches!(&self.state, ParserState::PredicateLoading);
        match parsed {
            ParsedLine::Prefix(p, u) => {
                if in_subject_loading {
                    self.prefixes.bind(p, u);
                    Ok(None)
                } else {
                    Err(TriplesError::PreviousSubjectNotComplete)
                }
            },
            ParsedLine::Subject(pre, n) => {
                if in_subject_loading {
                    match resolve_name(pre.as_ref(), n.as_str(), &self.prefixes) {
                        Ok(iri) => {
                            self.current_subject = Some(Subject::new(RdfName::new(iri)));
                            self.state = ParserState::PredicateLoading;
                            proof {
                                assert(subj_view(
                                    &self.current_subject->Some_0,
                                ).pairs =~= Map::<Seq<char>, Set<Seq<char>>>::empty());
                            }
                            Ok(None)
                        },
                        Err(e) => Err(e),
                    }
                } else {
                    Err(TriplesError::PreviousSubjectNotComplete)
                }
            },
            ParsedLine::PredObj(pp, pn, op, o, more) => {
                if in_subject_loading {
                    Err(TriplesError::NoSubjectDeclaired)
                } else if in_predicate_loading {
                    self.handle_pair(pp, pn, op, o, false, more)
                } else {
                    Err(TriplesError::PredicateWhileObjectListOpen)
                }
            },
            ParsedLine::PredObjTerm(pp, pn, op, o) => {
                if in_subject_loading {
                    Err(TriplesError::NoSubjectDeclaired)
                } else if in_predicate_loading {
                    self.handle_pair(pp, pn, op, o, true, false)
                } else {
                    Err(TriplesError::PredicateWhileObjectListOpen)
                }
            },
            ParsedLine::ContinueObj(op, o, more) => {
                if in_subject_loading {
                    Err(TriplesError::ObjectContinuationWithoutSubject)
                } else if in_predicate_loading {
                    Err(TriplesError::ObjectContinuationWithoutList)
                } else {
                    let pending: (Option<Pre>, RdfName) = match &self.state {
                        ParserState::ObjectLoading(p, n) => (
                            match p {
                                Some(q) => Some(Pre::new(str_to_string(q.as_str()))),
                                None => None,
                            },
                            RdfName::new(n.to_text()),
                        ),
                        _ => {
                            proof {
                                assert(false);
                            }
                            (None, RdfName::new(String::new()))
                        },
                    };
                    self.handle_pair(pending.0, pending.1, op, o, !more, more)
                }
            },
            ParsedLine::SubjectPredObj(sp, sn, pp, pn, op, o, more) => {
                if in_subject_loading {
                    self.handle_combined(sp, sn, pp, pn, op, o, false, more)
                } else {
                    Err(TriplesError::PreviousSubjectNotComplete)
                }
            },
            ParsedLine::SubjectPredObjTerm(sp, sn, pp, pn, op, o) => {
                if in_subject_loading {
                    self.handle_combined(sp, sn, pp, pn, op, o, true, false)
                } else {
                    Err(TriplesError::PreviousSubjectNotComplete)
                }
            },
        }
    }
}

/// The transition table of the state machine: exactly the fragment/state
/// pairs with an entry.
pub open spec fn fragment_allowed(st: StateV, f: ParsedLineV) -> bool {
    match (f, st) {
        (ParsedLineV::Prefix(_, _), StateV::SubjectLoading) => true,
        (ParsedLineV::Subject(_, _), StateV::SubjectLoading) => true,
        (ParsedLineV::PredObj(_, _, _, _, _), StateV::PredicateLoading) => true,
        (ParsedLineV::PredObjTerm(_, _, _, _), StateV::PredicateLoading) => true,
        (ParsedLineV::ContinueObj(_, _, _), StateV::ObjectLoading(_, _)) => true,
        (ParsedLineV::SubjectPredObj(_, _, _, _, _, _, _), StateV::SubjectLoading) => true,
        (ParsedLineV::SubjectPredObjTerm(_, _, _, _, _, _), StateV::SubjectLoading) => true,
        _ => false,
    }
}

/// State-machine safety: every fragment/state pair without an entry in the
/// transition table is refused.  Together with the contract of `load` --
/// which says that on every error the assembler's whole visible state, open
/// subject contents and prefix table included, is exactly what it was -- a
/// disallowed fragment can never advance or disturb the assembler.
pub proof fn lemma_state_machine_safety(m: AsmV, f: ParsedLineV)
    requires
        !fragment_allowed(m.state, f),
    ensures
        spec_step(m, f) is Err,
{
}

/// Prefix scoping: resolution happens at the point of use.  A prefixed name
/// whose mnemonic is unbound resolves to nothing -- so by the contract of
/// `load` the line using it is refused and changes nothing -- and binding
/// the mnemonic afterwards touches neither the subject under construction
/// nor anything already emitted: a declaration never reaches back to an
/// earlier use.
pub proof fn lemma_prefix_scoping(m: AsmV, pre: Seq<char>, local: Seq<char>, u: Seq<char>)
    requires
        !m.prefixes.contains_key(pre),
        m.state is SubjectLoading,
    ensures
        crate::resolver::spec_resolve(Some(pre), local, m.prefixes) is None,
        match spec_step(m, ParsedLineV::Prefix(pre, u)) {
            Ok(res) => res.1 is None && res.0.current == m.current && res.0.prefixes
                == m.prefixes.insert(pre, u),
            Err(_) => false,
        },
{
}


/// Run the assembler over a whole fragment sequence: the final state and the
/// subjects emitted along the way, or the first refusal.
pub open spec fn spec_run(m: AsmV, fs: Seq<ParsedLineV>) -> Result<(AsmV, Seq<SubjV>), StepErr>
    decreases fs.len(),
{
    if fs.len() == 0 {
        Ok((m, Seq::<SubjV>::empty()))
    } else {
        match spec_step(m, fs[0]) {
            Err(e) => Err(e),
            Ok(step1) => match spec_run(step1.0, fs.skip(1)) {
                Err(e) => Err(e),
                Ok(rest) => Ok(
                    (
                        rest.0,
                        (match step1.1 {
                            Some(x) => seq![x],
                            None => Seq::<SubjV>::empty(),
                        }) + rest.1,
                    ),
                ),
            },
        }
    }
}


/// Running a concatenation of fragment sequences runs one after the other,
/// collecting the emissions of both.
pub proof fn lemma_spec_run_concat(m: AsmV, fs1: Seq<ParsedLineV>, fs2: Seq<ParsedLineV>)
    requires
        spec_run(m, fs1) is Ok,
    ensures
        ({
            let mid = spec_run(m, fs1)->Ok_0;
            match spec_run(mid.0, fs2) {
                Ok(rest) => spec_run(m, fs1 + fs2) == Ok::<(AsmV, Seq<SubjV>), StepErr>(
                    (rest.0, mid.1 + rest.1),
                ),
                Err(e) => spec_run(m, fs1 + fs2) == Err::<(AsmV, Seq<SubjV>), StepErr>(e),
            }
        }),
    decreases fs1.len(),
{
    let mid = spec_run(m, fs1)->Ok_0;
    if fs1.len() == 0 {
        assert(fs1 + fs2 =~= fs2);
        assert(mid.0 == m && mid.1 =~= Seq::<SubjV>::empty());
        match spec_run(m, fs2) {
            Ok(rest) => {
                assert(mid.1 + rest.1 =~= rest.1);
            },
            Err(_) => {},
        }
    } else {
        let both = fs1 + fs2;
        assert(both.len() > 0);
        assert(both[0] == fs1[0]);
        match spec_step(m, fs1[0]) {
            Ok(step1) => {
                assert(spec_run(step1.0, fs1.skip(1)) is Ok);
                lemma_spec_run_concat(step1.0, fs1.skip(1), fs2);
                assert(both.skip(1) =~= fs1.skip(1) + fs2);
                let mid1 = spec_run(step1.0, fs1.skip(1))->Ok_0;
                let head = (match step1.1 {
                    Some(x) => seq![x],
                    None => Seq::<SubjV>::empty(),
                });
                assert(mid.0 == mid1.0);
                assert(mid.1 == head + mid1.1);
                match spec_run(mid1.0, fs2) {
                    Ok(rest) => {
                        assert(spec_run(step1.0, both.skip(1)) == Ok::<
                            (AsmV, Seq<SubjV>),
                            StepErr,
                        >((rest.0, mid1.1 + rest.1)));
                        assert(head + (mid1.1 + rest.1) =~= (head + mid1.1) + rest.1);
                    },
                    Err(_) => {},
                }
            },
            Err(_) => {
                assert(false);
            },
        }
    }
}

} // verus!




