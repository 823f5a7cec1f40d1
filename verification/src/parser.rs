use vstd::prelude::*;

use crate::document::{Document, Row, SDoc, SRow, SSection, Section, rows_model, sections_model, strings_model};
use crate::error::{errors_model, NormError, SpecError};
use crate::json::{JsonValue, SpecJson};
use crate::resolve::{json_res_model, resolve, spec_resolve, walk_document, walk_errors};
use crate::lexer::{Cell, SCell, SToken, Token, cells_model, is_ascii_digit, is_valid_section_name, lex_tokens, scell_is_empty_unquoted, scell_text, spec_lex, tokens_model, valid_section_name};

verus! {

// ---------------------------------------------------------------------------
// Structural collection: tokens -> document
// ---------------------------------------------------------------------------

pub enum PState {
    BeforeRoot,
    AwaitingSection,
    InSection(nat),
}

/// The state of structural collection after some tokens.
pub struct CState {
    pub root_array: Option<bool>,
    pub sections: Seq<SSection>,
    pub state: PState,
    pub prev_array_idx: Option<nat>,
    pub prev_array_blank_line: Option<nat>,
    pub missing_root_reported: bool,
    pub errors: Seq<SpecError>,
}

pub open spec fn cstate_init() -> CState {
    CState {
        root_array: None,
        sections: Seq::empty(),
        state: PState::BeforeRoot,
        prev_array_idx: None,
        prev_array_blank_line: None,
        missing_root_reported: false,
        errors: Seq::empty(),
    }
}

pub open spec fn has_section_named(secs: Seq<SSection>, name: Seq<char>) -> bool {
    exists|i: int| 0 <= i < secs.len() && #[trigger] secs[i].name == name
}

pub open spec fn new_section(name: Seq<char>, array: bool, line: nat) -> SSection {
    SSection { name, array, header_line: line, header: Seq::empty(), rows: Seq::empty() }
}

pub open spec fn header_of(cells: Seq<SCell>) -> Seq<Seq<char>> {
    cells.map_values(|c: SCell| scell_text(c))
}

/// A missing-root error, reported once.
pub open spec fn report_missing_root(st: CState) -> CState {
    if !st.missing_root_reported {
        CState {
            errors: st.errors.push(SpecError::MissingRootDeclaration),
            missing_root_reported: true,
            ..st
        }
    } else {
        st
    }
}

/// An invalid section name of a header that comes before the root, reported (such a
/// header makes no section, so the name is not checked with the sections).
pub open spec fn report_bad_name(st: CState, line: nat, name: Seq<char>) -> CState {
    if !valid_section_name(name) {
        CState { errors: st.errors.push(SpecError::InvalidSectionName { line, name }), ..st }
    } else {
        st
    }
}

/// One token's effect on the collection state.
pub open spec fn collect_step(st: CState, line: nat, tok: SToken) -> CState {
    match tok {
        SToken::Comment => st,
        SToken::Blank => match st.state {
            PState::InSection(idx) => {
                if st.sections[idx as int].array {
                    CState {
                        prev_array_idx: Some(idx),
                        prev_array_blank_line: Some(line),
                        state: PState::AwaitingSection,
                        ..st
                    }
                } else {
                    CState {
                        prev_array_idx: None,
                        prev_array_blank_line: None,
                        state: PState::AwaitingSection,
                        ..st
                    }
                }
            },
            PState::AwaitingSection => {
                if st.prev_array_idx is Some {
                    CState { prev_array_blank_line: Some(line), ..st }
                } else {
                    st
                }
            },
            _ => st,
        },
        SToken::Root { array } => match st.state {
            PState::BeforeRoot => CState {
                root_array: Some(array),
                state: PState::AwaitingSection,
                ..st
            },
            _ => CState {
                errors: st.errors.push(SpecError::InvalidRootDeclaration { line }),
                ..st
            },
        },
        SToken::Header { name, array } => {
            if st.state is BeforeRoot {
                report_bad_name(report_missing_root(st), line, name)
            } else if has_section_named(st.sections, name) {
                CState {
                    errors: st.errors.push(SpecError::DuplicateSectionName { line, name }),
                    state: PState::AwaitingSection,
                    prev_array_idx: None,
                    prev_array_blank_line: None,
                    ..st
                }
            } else {
                CState {
                    sections: st.sections.push(new_section(name, array, line)),
                    state: PState::InSection(st.sections.len()),
                    prev_array_idx: None,
                    prev_array_blank_line: None,
                    ..st
                }
            }
        },
        SToken::Row { cells } => match st.state {
            PState::BeforeRoot => report_missing_root(st),
            PState::AwaitingSection => {
                if st.prev_array_idx is Some {
                    let reported = match st.prev_array_blank_line {
                        Some(l) => l,
                        None => line,
                    };
                    CState {
                        errors: st.errors.push(SpecError::EmptyArrayRow { line: reported }),
                        ..st
                    }
                } else {
                    CState {
                        errors: st.errors.push(SpecError::UnexpectedDataRow { line }),
                        ..st
                    }
                }
            },
            PState::InSection(idx) => {
                let sec = st.sections[idx as int];
                if sec.array {
                    if cells.len() == 1 && scell_is_empty_unquoted(cells[0]) {
                        CState {
                            errors: st.errors.push(SpecError::EmptyArrayRow { line }),
                            ..st
                        }
                    } else {
                        CState {
                            sections: st.sections.update(
                                idx as int,
                                SSection { rows: sec.rows.push(SRow { line, cells }), ..sec },
                            ),
                            ..st
                        }
                    }
                } else if sec.header.len() == 0 {
                    CState {
                        sections: st.sections.update(
                            idx as int,
                            SSection { header: header_of(cells), ..sec },
                        ),
                        ..st
                    }
                } else {
                    CState {
                        sections: st.sections.update(
                            idx as int,
                            SSection { rows: sec.rows.push(SRow { line, cells }), ..sec },
                        ),
                        ..st
                    }
                }
            },
        },
    }
}

/// The collection state after the first `n` tokens.
pub open spec fn collect_upto(toks: Seq<(nat, SToken)>, n: int) -> CState
    decreases n,
{
    if n <= 0 {
        cstate_init()
    } else {
        collect_step(collect_upto(toks, n - 1), toks[n - 1].0, toks[n - 1].1)
    }
}

/// Errors for the sections among the first `n` whose name is not valid.
pub open spec fn name_errors(secs: Seq<SSection>, n: int) -> Seq<SpecError>
    decreases n,
{
    if n <= 0 {
        Seq::empty()
    } else {
        let e = name_errors(secs, n - 1);
        if !valid_section_name(secs[n - 1].name) {
            e.push(
                SpecError::InvalidSectionName {
                    line: secs[n - 1].header_line,
                    name: secs[n - 1].name,
                },
            )
        } else {
            e
        }
    }
}

/// The document (if a root was declared) and every structural error, in order.
pub open spec fn collect_finish(st: CState) -> (Option<SDoc>, Seq<SpecError>) {
    match st.root_array {
        None => (
            None,
            if st.missing_root_reported {
                st.errors
            } else {
                st.errors.push(SpecError::MissingRootDeclaration)
            },
        ),
        Some(ra) => {
            let secs = st.sections;
            let e1 = if secs.len() > 0 && !ra && secs[0].array {
                st.errors.push(SpecError::ArraySectionAsRoot { line: secs[0].header_line })
            } else {
                st.errors
            };
            let e2 = if secs.len() > 0 && !ra && secs[0].rows.len() > 1 {
                e1.push(SpecError::MultipleRootRows { line: secs[0].rows[1].line })
            } else {
                e1
            };
            (Some(SDoc { root_array: ra, sections: secs }), e2 + name_errors(secs, secs.len() as int))
        },
    }
}

/// Structural collection of an input: the document, and the errors met on the way.
pub open spec fn spec_collect_structural(s: Seq<char>) -> (Option<SDoc>, Seq<SpecError>) {
    match spec_lex(s) {
        Err(e) => (None, seq![e]),
        Ok(toks) => collect_finish(collect_upto(toks, toks.len() as int)),
    }
}

// ---------------------------------------------------------------------------
// Executable structural collection
// ---------------------------------------------------------------------------

#[derive(Clone, Copy)]
enum State {
    BeforeRoot,
    AwaitingSection,
    InSection(usize),
}

spec fn state_model(st: State) -> PState {
    match st {
        State::BeforeRoot => PState::BeforeRoot,
        State::AwaitingSection => PState::AwaitingSection,
        State::InSection(i) => PState::InSection(i as nat),
    }
}

spec fn opt_nat(o: Option<usize>) -> Option<nat> {
    match o {
        Some(x) => Some(x as nat),
        None => None,
    }
}

spec fn exec_cstate(
    root_array: Option<bool>,
    sections: Seq<Section>,
    state: State,
    prev_idx: Option<usize>,
    prev_line: Option<usize>,
    reported: bool,
    errs: Seq<NormError>,
) -> CState {
    CState {
        root_array,
        sections: sections_model(sections),
        state: state_model(state),
        prev_array_idx: opt_nat(prev_idx),
        prev_array_blank_line: opt_nat(prev_line),
        missing_root_reported: reported,
        errors: errors_model(errs),
    }
}

/// Whether some section is called `name`.
fn section_named(sections: &Vec<Section>, name: &String) -> (r: bool)
    ensures
        r == has_section_named(sections_model(sections@), name@),
{
    let ghost secs = sections_model(sections@);
    let mut i: usize = 0;
    while i < sections.len()
        invariant
            i <= sections@.len(),
            secs == sections_model(sections@),
            forall|k: int| 0 <= k < i ==> secs[k].name != name@,
        decreases sections@.len() - i,
    {
        if sections[i].name == *name {
            assert(secs[i as int].name == name@);
            return true;
        }
        i += 1;
    }
    false
}

/// The header names of a row of cells.
fn header_from_cells(cells: &Vec<Cell>) -> (r: Vec<String>)
    ensures
        strings_model(r@) == header_of(cells_model(cells@)),
{
    let mut out: Vec<String> = Vec::new();
    let mut i: usize = 0;
    while i < cells.len()
        invariant
            i <= cells@.len(),
            strings_model(out@) == header_of(cells_model(cells@)).take(i as int),
        decreases cells@.len() - i,
    {
        let t = match &cells[i] {
            Cell::Quoted(s) => s.clone(),
            Cell::Unquoted(s) => s.clone(),
        };
        let ghost before = strings_model(out@);
        assert(cells_model(cells@)[i as int] == cells@[i as int].model());
        assert(t@ == header_of(cells_model(cells@))[i as int]);
        let ghost tv = t@;
        let ghost old_out = out@;
        out.push(t);
        assert(strings_model(out@) =~= strings_model(old_out).push(tv));
        assert(strings_model(out@) =~= header_of(cells_model(cells@)).take(i + 1));
        i += 1;
    }
    assert(header_of(cells_model(cells@)).take(cells@.len() as int) =~= header_of(
        cells_model(cells@),
    ));
    out
}

proof fn lemma_errors_model_push(v: Seq<NormError>, e: NormError)
    ensures
        errors_model(v.push(e)) == errors_model(v).push(e.model()),
{
    assert(errors_model(v.push(e)) =~= errors_model(v).push(e.model()));
}

proof fn lemma_errors_model_concat(a: Seq<NormError>, b: Seq<NormError>)
    ensures
        errors_model(a + b) == errors_model(a) + errors_model(b),
{
    assert(errors_model(a + b) =~= errors_model(a) + errors_model(b));
}

proof fn lemma_sections_model_push(v: Seq<Section>, s: Section)
    ensures
        sections_model(v.push(s)) == sections_model(v).push(s.model()),
{
    assert(sections_model(v.push(s)) =~= sections_model(v).push(s.model()));
}

proof fn lemma_rows_model_push(v: Seq<Row>, r: Row)
    ensures
        rows_model(v.push(r)) == rows_model(v).push(r.model()),
{
    assert(rows_model(v.push(r)) =~= rows_model(v).push(r.model()));
}

/// Structural collection: appends every structural error to `errors`, in order.
#[verifier::loop_isolation(false)]
pub fn collect_structural(input: &str, errors: &mut Vec<NormError>) -> (r: Option<Document>)
    requires
        input@.len() < usize::MAX,
    ensures
        errors_model(final(errors)@) == errors_model(old(errors)@) + spec_collect_structural(
            input@,
        ).1,
        match r {
            Some(d) => spec_collect_structural(input@).0 == Some(d.model()),
            None => spec_collect_structural(input@).0 is None,
        },
{
    let tokens = match lex_tokens(input, false) {
        Ok(t) => t,
        Err(e) => {
            proof {
                lemma_errors_model_push(old(errors)@, e);
            }
            errors.push(e);
            return None;
        },
    };
    let ghost toks = tokens_model(tokens@);
    let mut errs: Vec<NormError> = Vec::new();
    let mut root_array: Option<bool> = None;
    let mut sections: Vec<Section> = Vec::new();
    let mut state = State::BeforeRoot;
    let mut prev_array_idx: Option<usize> = None;
    let mut prev_array_blank_line: Option<usize> = None;
    let mut missing_root_reported = false;
    assert(errors_model(errs@) =~= Seq::<SpecError>::empty());
    assert(sections_model(sections@) =~= Seq::<SSection>::empty());
    for pair in it: tokens.into_iter()
        invariant
            toks == tokens_model(it.seq()),
            exec_cstate(
                root_array,
                sections@,
                state,
                prev_array_idx,
                prev_array_blank_line,
                missing_root_reported,
                errs@,
            ) == collect_upto(toks, it.index() as int),
            state matches State::InSection(i) ==> i + 1 == sections@.len(),
    {
        let ghost st = collect_upto(toks, it.index() as int);
        let ghost k = it.index() as int;
        assert(toks[k] == (pair.0 as nat, pair.1.model()));
        let (line, token) = pair;
        match token {
            Token::Comment => {},
            Token::Blank => {
                if let State::InSection(idx) = state {
                    if sections[idx].array {
                        prev_array_idx = Some(idx);
                        prev_array_blank_line = Some(line);
                    } else {
                        prev_array_idx = None;
                        prev_array_blank_line = None;
                    }
                    state = State::AwaitingSection;
                } else if let State::AwaitingSection = state {
                    if prev_array_idx.is_some() {
                        prev_array_blank_line = Some(line);
                    }
                }
            },
            Token::RootDeclaration { array } => {
                match state {
                    State::BeforeRoot => {
                        root_array = Some(array);
                        state = State::AwaitingSection;
                    },
                    _ => {
                        proof {
                            lemma_errors_model_push(errs@, NormError::InvalidRootDeclaration { line });
                        }
                        errs.push(NormError::InvalidRootDeclaration { line });
                    },
                }
            },
            Token::SectionHeader { name, array } => {
                if let State::BeforeRoot = state {
                    if !missing_root_reported {
                        proof {
                            lemma_errors_model_push(errs@, NormError::MissingRootDeclaration);
                        }
                        errs.push(NormError::MissingRootDeclaration);
                        missing_root_reported = true;
                    }
                    if !is_valid_section_name(name.as_str()) {
                        proof {
                            lemma_errors_model_push(errs@, NormError::InvalidSectionName { line, name });
                        }
                        errs.push(NormError::InvalidSectionName { line, name });
                    }
                } else if section_named(&sections, &name) {
                    proof {
                        lemma_errors_model_push(errs@, NormError::DuplicateSectionName { line, name });
                    }
                    errs.push(NormError::DuplicateSectionName { line, name });
                    state = State::AwaitingSection;
                    prev_array_idx = None;
                    prev_array_blank_line = None;
                } else {
                    let sec = Section {
                        name,
                        array,
                        header_line: line,
                        header: Vec::new(),
                        rows: Vec::new(),
                    };
                    assert(strings_model(sec.header@) =~= Seq::<Seq<char>>::empty());
                    assert(rows_model(sec.rows@) =~= Seq::<SRow>::empty());
                    proof {
                        lemma_sections_model_push(sections@, sec);
                    }
                    sections.push(sec);
                    state = State::InSection(sections.len() - 1);
                    prev_array_idx = None;
                    prev_array_blank_line = None;
                }
            },
            Token::DataRow { cells } => {
                match state {
                    State::BeforeRoot => {
                        if !missing_root_reported {
                            proof {
                                lemma_errors_model_push(errs@, NormError::MissingRootDeclaration);
                            }
                            errs.push(NormError::MissingRootDeclaration);
                            missing_root_reported = true;
                        }
                    },
                    State::AwaitingSection => {
                        if prev_array_idx.is_some() {
                            let reported = match prev_array_blank_line {
                                Some(l) => l,
                                None => line,
                            };
                            proof {
                                lemma_errors_model_push(errs@, NormError::EmptyArrayRow { line: reported });
                            }
                            errs.push(NormError::EmptyArrayRow { line: reported });
                        } else {
                            proof {
                                lemma_errors_model_push(errs@, NormError::UnexpectedDataRow { line });
                            }
                            errs.push(NormError::UnexpectedDataRow { line });
                        }
                    },
                    State::InSection(idx) => {
                        let ghost cm = cells_model(cells@);
                        let ghost secs_before = sections@;
                        let mut section = sections.pop().unwrap();
                        assert(secs_before == sections@.push(section));
                        let ghost sm = section.model();
                        if section.array {
                            if cells.len() == 1 && cells[0].is_empty_unquoted() {
                                proof {
                                    lemma_errors_model_push(errs@, NormError::EmptyArrayRow { line });
                                }
                                errs.push(NormError::EmptyArrayRow { line });
                                sections.push(section);
                            } else {
                                let row = Row { line, cells };
                                proof {
                                    lemma_rows_model_push(section.rows@, row);
                                }
                                section.rows.push(row);
                                proof {
                                    lemma_sections_model_push(sections@, section);
                                    assert(sections_model(sections@.push(section)) =~= sections_model(secs_before).update(idx as int, SSection { rows: sm.rows.push(SRow { line: line as nat, cells: cm }), ..sm }));
                                }
                                sections.push(section);
                            }
                        } else if section.header.len() == 0 {
                            section.header = header_from_cells(&cells);
                            proof {
                                lemma_sections_model_push(sections@, section);
                                assert(sections_model(sections@.push(section)) =~= sections_model(secs_before).update(idx as int, SSection { header: header_of(cm), ..sm }));
                            }
                            sections.push(section);
                        } else {
                            let row = Row { line, cells };
                            proof {
                                lemma_rows_model_push(section.rows@, row);
                            }
                            section.rows.push(row);
                            proof {
                                lemma_sections_model_push(sections@, section);
                                assert(sections_model(sections@.push(section)) =~= sections_model(secs_before).update(idx as int, SSection { rows: sm.rows.push(SRow { line: line as nat, cells: cm }), ..sm }));
                            }
                            sections.push(section);
                        }
                    },
                }
            },
        }
    }
    let ghost st = collect_upto(toks, toks.len() as int);
    let ghost fin = collect_finish(st);
    let ghost e_old = errors_model(old(errors)@);
    let root_array = match root_array {
        Some(ra) => ra,
        None => {
            if !missing_root_reported {
                proof {
                    lemma_errors_model_push(errs@, NormError::MissingRootDeclaration);
                }
                errs.push(NormError::MissingRootDeclaration);
            }
            proof {
                lemma_errors_model_concat(errors@, errs@);
            }
            errors.append(&mut errs);
            return None;
        },
    };
    if sections.len() > 0 {
        if !root_array && sections[0].array {
            proof {
                lemma_errors_model_push(errs@, NormError::ArraySectionAsRoot { line: sections[0].header_line });
            }
            errs.push(NormError::ArraySectionAsRoot { line: sections[0].header_line });
        }
        if !root_array && sections[0].rows.len() > 1 {
            proof {
                lemma_errors_model_push(errs@, NormError::MultipleRootRows { line: sections[0].rows[1].line });
            }
            errs.push(NormError::MultipleRootRows { line: sections[0].rows[1].line });
        }
    }
    let ghost e2 = errors_model(errs@);
    let mut i: usize = 0;
    while i < sections.len()
        invariant
            i <= sections@.len(),
            errors_model(errs@) == e2 + name_errors(sections_model(sections@), i as int),
        decreases sections@.len() - i,
    {
        if !is_valid_section_name(sections[i].name.as_str()) {
            let e = NormError::InvalidSectionName {
                line: sections[i].header_line,
                name: sections[i].name.clone(),
            };
            proof {
                lemma_errors_model_push(errs@, e);
            }
            errs.push(e);
        }
        i += 1;
    }
    proof {
        lemma_errors_model_concat(errors@, errs@);
    }
    errors.append(&mut errs);
    Some(Document { root_array, sections })
}

// ---------------------------------------------------------------------------
// The pk index: which table row each pk value names
// ---------------------------------------------------------------------------

pub open spec fn pk_word() -> Seq<char> {
    seq!['p', 'k']
}

/// A table section whose first header column is `pk`.
pub open spec fn is_pk_table(sec: SSection) -> bool {
    !sec.array && sec.header.len() > 0 && sec.header[0] == pk_word()
}

/// A non-negative decimal integer without leading zeros.
pub open spec fn valid_pk(v: Seq<char>) -> bool {
    &&& v.len() > 0
    &&& forall|i: int| 0 <= i < v.len() ==> #[trigger] is_ascii_digit(v[i])
    &&& !(v.len() > 1 && v[0] == '0')
}

/// The (section, row) that the pk `key` names, if any.
pub open spec fn pk_lookup(map: Seq<(Seq<char>, nat, nat)>, key: Seq<char>) -> Option<(nat, nat)>
    decreases map.len(),
{
    if map.len() == 0 {
        None
    } else if map[0].0 == key {
        Some((map[0].1, map[0].2))
    } else {
        pk_lookup(map.drop_first(), key)
    }
}

pub type PkState = (Seq<(Seq<char>, nat, nat)>, Seq<SpecError>);

/// The effect of row `ri` of pk table `si` on the index and the errors.
pub open spec fn pk_step(secs: Seq<SSection>, si: int, ri: int, st: PkState) -> PkState {
    let row = secs[si].rows[ri];
    if row.cells.len() == 0 {
        st
    } else {
        match row.cells[0] {
            SCell::Quoted(v) => (st.0, st.1.push(SpecError::InvalidPk { line: row.line, value: v })),
            SCell::Unquoted(v) => {
                if !valid_pk(v) {
                    (st.0, st.1.push(SpecError::InvalidPk { line: row.line, value: v }))
                } else if pk_lookup(st.0, v) is Some {
                    (st.0, st.1.push(SpecError::DuplicatePk { line: row.line, pk: v }))
                } else {
                    (st.0.push((v, si as nat, ri as nat)), st.1)
                }
            },
        }
    }
}

/// The state after the first `n` rows of table `si`.
pub open spec fn pk_rows(secs: Seq<SSection>, si: int, n: int, st: PkState) -> PkState
    decreases n,
{
    if n <= 0 {
        st
    } else {
        pk_step(secs, si, n - 1, pk_rows(secs, si, n - 1, st))
    }
}

/// The index and the errors after the first `n` sections.
pub open spec fn pk_sections(secs: Seq<SSection>, n: int) -> PkState
    decreases n,
{
    if n <= 0 {
        (Seq::empty(), Seq::empty())
    } else {
        let st = pk_sections(secs, n - 1);
        if is_pk_table(secs[n - 1]) {
            pk_rows(secs, n - 1, secs[n - 1].rows.len() as int, st)
        } else {
            st
        }
    }
}

/// The pk index of a document, and every pk error in order.
pub open spec fn spec_pk_collect(secs: Seq<SSection>) -> PkState {
    pk_sections(secs, secs.len() as int)
}

/// The pk index, or the first pk error.
pub open spec fn spec_build_pk_index(secs: Seq<SSection>) -> Result<
    Seq<(Seq<char>, nat, nat)>,
    SpecError,
> {
    let st = spec_pk_collect(secs);
    if st.1.len() == 0 {
        Ok(st.0)
    } else {
        Err(st.1[0])
    }
}

pub proof fn lemma_pk_rows_mono(secs: Seq<SSection>, si: int, k: int, m: int, st: PkState)
    requires
        0 <= k <= m,
    ensures
        pk_rows(secs, si, k, st).1.len() <= pk_rows(secs, si, m, st).1.len(),
        pk_rows(secs, si, m, st).1.subrange(0, pk_rows(secs, si, k, st).1.len() as int)
            == pk_rows(secs, si, k, st).1,
    decreases m,
{
    if m > k {
        lemma_pk_rows_mono(secs, si, k, m - 1, st);
        let a = pk_rows(secs, si, k, st).1;
        let b = pk_rows(secs, si, m - 1, st).1;
        let c = pk_rows(secs, si, m, st).1;
        assert(c.subrange(0, a.len() as int) =~= b.subrange(0, a.len() as int));
    }
}

pub proof fn lemma_pk_sections_mono(secs: Seq<SSection>, k: int, m: int)
    requires
        0 <= k <= m,
    ensures
        pk_sections(secs, k).1.len() <= pk_sections(secs, m).1.len(),
        pk_sections(secs, m).1.subrange(0, pk_sections(secs, k).1.len() as int) == pk_sections(
            secs,
            k,
        ).1,
    decreases m,
{
    if m > k {
        lemma_pk_sections_mono(secs, k, m - 1);
        let st = pk_sections(secs, m - 1);
        if is_pk_table(secs[m - 1]) {
            lemma_pk_rows_mono(secs, m - 1, 0, secs[m - 1].rows.len() as int, st);
        }
        let a = pk_sections(secs, k).1;
        let b = pk_sections(secs, m - 1).1;
        let c = pk_sections(secs, m).1;
        assert(c.subrange(0, a.len() as int) =~= b.subrange(0, a.len() as int));
    }
}

/// An index of pk values to (section, row), in insertion order.
pub struct PkIndex {
    pub entries: Vec<(String, usize, usize)>,
}

impl PkIndex {
    pub open spec fn model(&self) -> Seq<(Seq<char>, nat, nat)> {
        self.entries@.map_values(|e: (String, usize, usize)| (e.0@, e.1 as nat, e.2 as nat))
    }

    pub fn get(&self, key: &String) -> (r: Option<(usize, usize)>)
        ensures
            match r {
                Some((a, b)) => pk_lookup(self.model(), key@) == Some((a as nat, b as nat)),
                None => pk_lookup(self.model(), key@) is None,
            },
    {
        let ghost m = self.model();
        assert(m.skip(0) =~= m);
        let mut i: usize = 0;
        while i < self.entries.len()
            invariant
                i <= self.entries@.len(),
                m == self.model(),
                pk_lookup(m, key@) == pk_lookup(m.skip(i as int), key@),
            decreases self.entries@.len() - i,
        {
            assert(m.skip(i as int).drop_first() =~= m.skip(i + 1));
            if self.entries[i].0 == *key {
                return Some((self.entries[i].1, self.entries[i].2));
            }
            i += 1;
        }
        None
    }

    fn insert(&mut self, key: String, si: usize, ri: usize)
        ensures
            final(self).model() == old(self).model().push((key@, si as nat, ri as nat)),
    {
        let ghost before = self.model();
        self.entries.push((key, si, ri));
        assert(self.model() =~= before.push((key@, si as nat, ri as nat)));
    }
}

/// Whether `s` is a non-negative decimal integer without leading zeros.
pub fn is_valid_pk(s: &String) -> (r: bool)
    ensures
        r == valid_pk(s@),
{
    let v = crate::text::str_chars(s.as_str());
    if v.len() == 0 {
        return false;
    }
    let mut i: usize = 0;
    while i < v.len()
        invariant
            i <= v@.len(),
            v@ == s@,
            forall|k: int| 0 <= k < i ==> #[trigger] is_ascii_digit(v@[k]),
        decreases v@.len() - i,
    {
        if !('0' <= v[i] && v[i] <= '9') {
            assert(!is_ascii_digit(v@[i as int]));
            return false;
        }
        i += 1;
    }
    if v.len() > 1 && v[0] == '0' {
        return false;
    }
    true
}

/// Whether a section's header starts with a `pk` column.
pub(crate) fn has_pk_column(section: &Section) -> (r: bool)
    ensures
        r == (section.model().header.len() > 0 && section.model().header[0] == pk_word()),
{
    if section.header.len() == 0 {
        return false;
    }
    let pk = crate::text::str_chars(section.header[0].as_str());
    let w = vec!['p', 'k'];
    assert(w@ =~= pk_word());
    assert(pk@.subrange(0, pk@.len() as int) =~= pk@);
    crate::lexer::range_eq(&pk, 0, pk.len(), &w)
}

/// The pk index; every pk error is appended to `errors`, in order.
pub fn build_pk_index_collecting(sections: &Vec<Section>, errors: &mut Vec<NormError>) -> (r:
    PkIndex)
    ensures
        r.model() == spec_pk_collect(sections_model(sections@)).0,
        errors_model(final(errors)@) == errors_model(old(errors)@) + spec_pk_collect(
            sections_model(sections@),
        ).1,
{
    let ghost secs = sections_model(sections@);
    let ghost e0 = errors_model(errors@);
    let mut map = PkIndex { entries: Vec::new() };
    assert(map.model() =~= Seq::<(Seq<char>, nat, nat)>::empty());
    let mut sec_idx: usize = 0;
    while sec_idx < sections.len()
        invariant
            sec_idx <= sections@.len(),
            secs == sections_model(sections@),
            (map.model(), errors_model(errors@).skip(e0.len() as int)) == pk_sections(
                secs,
                sec_idx as int,
            ),
            errors_model(errors@).len() >= e0.len(),
            errors_model(errors@).subrange(0, e0.len() as int) == e0,
        decreases sections@.len() - sec_idx,
    {
        let section = &sections[sec_idx];
        assert(secs[sec_idx as int] == section.model());
        if !section.array && has_pk_column(section) {
            let ghost st0 = pk_sections(secs, sec_idx as int);
            let mut row_idx: usize = 0;
            while row_idx < section.rows.len()
                invariant
                    row_idx <= section.rows@.len(),
                    sec_idx < sections@.len(),
                    secs == sections_model(sections@),
                    secs[sec_idx as int] == section.model(),
                    is_pk_table(section.model()),
                    (map.model(), errors_model(errors@).skip(e0.len() as int)) == pk_rows(
                        secs,
                        sec_idx as int,
                        row_idx as int,
                        st0,
                    ),
                    errors_model(errors@).len() >= e0.len(),
                    errors_model(errors@).subrange(0, e0.len() as int) == e0,
                decreases section.rows@.len() - row_idx,
            {
                let row = &section.rows[row_idx];
                assert(section.model().rows[row_idx as int] == row.model());
                let ghost before = errors@;
                if row.cells.len() > 0 {
                    assert(row.model().cells[0] == row.cells@[0].model());
                    match &row.cells[0] {
                        Cell::Quoted(v) => {
                            let e = NormError::InvalidPk { line: row.line, value: v.clone() };
                            proof {
                                lemma_errors_model_push(errors@, e);
                            }
                            errors.push(e);
                            assert(errors_model(errors@).skip(e0.len() as int) =~= errors_model(
                                before,
                            ).skip(e0.len() as int).push(e.model()));
                        },
                        Cell::Unquoted(v) => {
                            if !is_valid_pk(v) {
                                let e = NormError::InvalidPk { line: row.line, value: v.clone() };
                                proof {
                                    lemma_errors_model_push(errors@, e);
                                }
                                errors.push(e);
                                assert(errors_model(errors@).skip(e0.len() as int)
                                    =~= errors_model(before).skip(e0.len() as int).push(
                                    e.model(),
                                ));
                            } else if map.get(v).is_some() {
                                let e = NormError::DuplicatePk { line: row.line, pk: v.clone() };
                                proof {
                                    lemma_errors_model_push(errors@, e);
                                }
                                errors.push(e);
                                assert(errors_model(errors@).skip(e0.len() as int)
                                    =~= errors_model(before).skip(e0.len() as int).push(
                                    e.model(),
                                ));
                            } else {
                                map.insert(v.clone(), sec_idx, row_idx);
                            }
                        },
                    }
                }
                proof {
                    assert(errors_model(errors@).subrange(0, e0.len() as int) =~= e0);
                }
                row_idx += 1;
            }
        }
        sec_idx += 1;
    }
    assert(errors_model(errors@) =~= e0 + errors_model(errors@).skip(e0.len() as int));
    map
}

/// The pk index, or the first pk error.
pub fn build_pk_index(sections: &Vec<Section>) -> (r: Result<PkIndex, NormError>)
    ensures
        match r {
            Ok(m) => spec_build_pk_index(sections_model(sections@)) == Ok::<
                Seq<(Seq<char>, nat, nat)>,
                SpecError,
            >(m.model()),
            Err(e) => spec_build_pk_index(sections_model(sections@)) == Err::<
                Seq<(Seq<char>, nat, nat)>,
                SpecError,
            >(e.model()),
        },
{
    let ghost secs = sections_model(sections@);
    let mut map = PkIndex { entries: Vec::new() };
    assert(map.model() =~= Seq::<(Seq<char>, nat, nat)>::empty());
    let mut sec_idx: usize = 0;
    while sec_idx < sections.len()
        invariant
            sec_idx <= sections@.len(),
            secs == sections_model(sections@),
            pk_sections(secs, sec_idx as int) == (map.model(), Seq::<SpecError>::empty()),
        decreases sections@.len() - sec_idx,
    {
        let section = &sections[sec_idx];
        assert(secs[sec_idx as int] == section.model());
        if !section.array && has_pk_column(section) {
            let ghost st0 = pk_sections(secs, sec_idx as int);
            let mut row_idx: usize = 0;
            while row_idx < section.rows.len()
                invariant
                    row_idx <= section.rows@.len(),
                    sec_idx < sections@.len(),
                    secs == sections_model(sections@),
                    secs[sec_idx as int] == section.model(),
                    is_pk_table(section.model()),
                    st0 == pk_sections(secs, sec_idx as int),
                    pk_rows(secs, sec_idx as int, row_idx as int, st0) == (
                        map.model(),
                        Seq::<SpecError>::empty(),
                    ),
                decreases section.rows@.len() - row_idx,
            {
                let row = &section.rows[row_idx];
                assert(section.model().rows[row_idx as int] == row.model());
                let ghost step = pk_rows(secs, sec_idx as int, row_idx + 1, st0);
                if row.cells.len() > 0 {
                    assert(row.model().cells[0] == row.cells@[0].model());
                    let e = match &row.cells[0] {
                        Cell::Quoted(v) => Some(NormError::InvalidPk { line: row.line, value: v.clone() }),
                        Cell::Unquoted(v) => {
                            if !is_valid_pk(v) {
                                Some(NormError::InvalidPk { line: row.line, value: v.clone() })
                            } else if map.get(v).is_some() {
                                Some(NormError::DuplicatePk { line: row.line, pk: v.clone() })
                            } else {
                                map.insert(v.clone(), sec_idx, row_idx);
                                None
                            }
                        },
                    };
                    if let Some(e) = e {
                        proof {
                            assert(step.1 =~= seq![e.model()]);
                            lemma_pk_rows_mono(
                                secs,
                                sec_idx as int,
                                row_idx + 1,
                                section.rows@.len() as int,
                                st0,
                            );
                            lemma_pk_sections_mono(secs, sec_idx + 1, secs.len() as int);
                            let f1 = pk_sections(secs, sec_idx + 1).1;
                            let f = spec_pk_collect(secs).1;
                            assert(f1.subrange(0, 1) =~= seq![e.model()]);
                            assert(f.subrange(0, f1.len() as int).subrange(0, 1) =~= f.subrange(0, 1));
                            assert(f[0] == f.subrange(0, 1)[0]);
                        }
                        return Err(e);
                    }
                }
                row_idx += 1;
            }
        }
        sec_idx += 1;
    }
    Ok(map)
}

// ---------------------------------------------------------------------------
// Public entry points
// ---------------------------------------------------------------------------

/// The collected document, or the first structural error.
pub open spec fn spec_collect_document(s: Seq<char>) -> Result<SDoc, SpecError> {
    let (d, errs) = spec_collect_structural(s);
    if errs.len() > 0 {
        Err(errs[0])
    } else {
        match d {
            Some(d) => Ok(d),
            None => Err(SpecError::MissingRootDeclaration),
        }
    }
}

/// The value of the collected document, or the first error of collection or resolution.
pub open spec fn spec_parse_document(s: Seq<char>) -> Result<SpecJson, SpecError> {
    match spec_collect_document(s) {
        Err(e) => Err(e),
        Ok(d) => spec_resolve(d),
    }
}

/// NORM text to a JSON value; the first error wins. Lexing is strict, so an invalid
/// section name stops it at its line.
pub open spec fn spec_parse(s: Seq<char>) -> Result<SpecJson, SpecError> {
    match crate::lexer::spec_lex_strict(s) {
        Err(e) => Err(e),
        Ok(_) => spec_parse_document(s),
    }
}

/// Every error of a NORM text, in order: structural, pk, references, reachability.
pub open spec fn spec_validate(s: Seq<char>) -> Result<(), Seq<SpecError>> {
    let (d, errs1) = spec_collect_structural(s);
    match d {
        None => Err(errs1),
        Some(d) => {
            let (pk, errs2) = spec_pk_collect(d.sections);
            let errs = errs1 + errs2 + walk_errors(d, pk);
            if errs.len() == 0 {
                Ok(())
            } else {
                Err(errs)
            }
        },
    }
}

/// The collected document, or the first structural error.
pub fn collect_document(input: &str) -> (r: Result<Document, NormError>)
    requires
        input@.len() < usize::MAX,
    ensures
        match r {
            Ok(d) => spec_collect_document(input@) == Ok::<SDoc, SpecError>(d.model()),
            Err(e) => spec_collect_document(input@) == Err::<SDoc, SpecError>(e.model()),
        },
{
    let mut errors: Vec<NormError> = Vec::new();
    assert(errors_model(errors@) =~= Seq::<SpecError>::empty());
    let doc = collect_structural(input, &mut errors);
    assert(errors_model(errors@) =~= spec_collect_structural(input@).1);
    if errors.len() > 0 {
        let first = errors.remove(0);
        return Err(first);
    }
    match doc {
        Some(d) => Ok(d),
        None => Err(NormError::MissingRootDeclaration),
    }
}

/// Parses NORM text into a JSON value; the first error encountered is returned.
pub fn parse(input: &str) -> (r: Result<JsonValue, NormError>)
    requires
        input@.len() < usize::MAX,
    ensures
        json_res_model(r) == spec_parse(input@),
{
    if let Err(e) = crate::lexer::lex(input) {
        return Err(e);
    }
    let doc = match collect_document(input) {
        Ok(d) => d,
        Err(e) => {
            return Err(e);
        },
    };
    resolve(&doc)
}

/// Validates NORM text, collecting every error rather than stopping at the first.
pub fn validate(input: &str) -> (r: Result<(), Vec<NormError>>)
    requires
        input@.len() < usize::MAX,
    ensures
        match r {
            Ok(()) => spec_validate(input@) == Ok::<(), Seq<SpecError>>(()),
            Err(es) => spec_validate(input@) == Err::<(), Seq<SpecError>>(errors_model(es@)),
        },
{
    let mut errors: Vec<NormError> = Vec::new();
    assert(errors_model(errors@) =~= Seq::<SpecError>::empty());
    let doc = match collect_structural(input, &mut errors) {
        Some(d) => d,
        None => {
            assert(errors_model(errors@) =~= spec_collect_structural(input@).1);
            return Err(errors);
        },
    };
    let pk_index = build_pk_index_collecting(&doc.sections, &mut errors);
    walk_document(&doc, pk_index, &mut errors);
    let ghost sc = spec_collect_structural(input@);
    let ghost pc = spec_pk_collect(doc.model().sections);
    assert(errors_model(errors@) =~= sc.1 + pc.1 + walk_errors(doc.model(), pc.0));
    if errors.len() == 0 {
        Ok(())
    } else {
        Err(errors)
    }
}

} // verus!
