use vstd::prelude::*;

use crate::document::{Document, SDoc, SSection, spec_find_section};
use crate::error::{NormError, SpecError, errors_model};
use crate::json::{
    JsonValue, SpecJson, items_model, lemma_model_array, lemma_model_object, members_insert,
    members_model, obj_insert, parse_bare_value, spec_bare_value,
};
use crate::lexer::{
    Cell, SCell, is_ascii_digit, range_eq, scell_is_empty_unquoted, valid_name_range,
    valid_section_name,
};
use crate::parser::{PkIndex, build_pk_index, has_pk_column, pk_lookup, pk_word};
use crate::text::{chars_to_string, dec, push_decimal, push_str_chars, str_chars, string_of};

verus! {

// ---------------------------------------------------------------------------
// Rows and sections that may be in flight during reference resolution
// ---------------------------------------------------------------------------

pub enum Key {
    Row(nat, nat),
    Sec(nat),
}

pub open spec fn key_valid(secs: Seq<SSection>, k: Key) -> bool {
    match k {
        Key::Row(si, ri) => si < secs.len() && ri < secs[si as int].rows.len(),
        Key::Sec(si) => si < secs.len(),
    }
}

/// Every key of the first `n` sections.
pub open spec fn keys_upto(secs: Seq<SSection>, n: int) -> Seq<Key>
    decreases n,
{
    if n <= 0 {
        Seq::empty()
    } else {
        keys_upto(secs, n - 1) + seq![Key::Sec((n - 1) as nat)] + Seq::new(
            secs[n - 1].rows.len(),
            |j: int| Key::Row((n - 1) as nat, j as nat),
        )
    }
}

pub open spec fn total_keys(secs: Seq<SSection>) -> int {
    keys_upto(secs, secs.len() as int).len() as int
}

/// The keys in flight: distinct, and each names a row or section of the document.
pub open spec fn path_ok(secs: Seq<SSection>, path: Seq<Key>) -> bool {
    &&& path.no_duplicates()
    &&& forall|i: int| 0 <= i < path.len() ==> key_valid(secs, #[trigger] path[i])
}

proof fn lemma_keys_upto_contains(secs: Seq<SSection>, n: int, k: Key)
    requires
        0 <= n <= secs.len(),
        key_valid(secs, k),
        match k {
            Key::Row(si, _) => si < n,
            Key::Sec(si) => si < n,
        },
    ensures
        keys_upto(secs, n).contains(k),
    decreases n,
{
    let prev = keys_upto(secs, n - 1);
    let mid = seq![Key::Sec((n - 1) as nat)];
    let rows = Seq::new(secs[n - 1].rows.len(), |j: int| Key::Row((n - 1) as nat, j as nat));
    match k {
        Key::Row(si, ri) => {
            if si < n - 1 {
                lemma_keys_upto_contains(secs, n - 1, k);
                let i = choose|i: int| 0 <= i < prev.len() && prev[i] == k;
                assert((prev + mid + rows)[i] == k);
            } else {
                assert((prev + mid + rows)[(prev.len() + 1 + ri) as int] == k);
            }
        },
        Key::Sec(si) => {
            if si < n - 1 {
                lemma_keys_upto_contains(secs, n - 1, k);
                let i = choose|i: int| 0 <= i < prev.len() && prev[i] == k;
                assert((prev + mid + rows)[i] == k);
            } else {
                assert((prev + mid + rows)[prev.len() as int] == k);
            }
        },
    }
}

pub proof fn lemma_distinct_within<A>(p: Seq<A>, u: Seq<A>)
    requires
        p.no_duplicates(),
        forall|i: int| 0 <= i < p.len() ==> u.contains(#[trigger] p[i]),
    ensures
        p.len() <= u.len(),
{
    p.unique_seq_to_set();
    u.lemma_cardinality_of_set();
    vstd::seq_lib::seq_to_set_is_finite(u);
    assert(p.to_set().subset_of(u.to_set()));
    vstd::set_lib::lemma_len_subset(p.to_set(), u.to_set());
}

/// Putting a new valid key in flight keeps the path well-formed and shorter than all keys.
pub proof fn lemma_path_push(secs: Seq<SSection>, path: Seq<Key>, k: Key)
    requires
        path_ok(secs, path),
        key_valid(secs, k),
        !path.contains(k),
    ensures
        path_ok(secs, path.push(k)),
        path.len() + 1 <= total_keys(secs),
{
    let p = path.push(k);
    assert forall|i: int, j: int| 0 <= i < p.len() && 0 <= j < p.len() && i != j implies p[i]
        != p[j] by {
        if i == path.len() as int {
            assert(p[j] == path[j]);
        } else if j == path.len() as int {
            assert(p[i] == path[i]);
        }
    }
    assert forall|i: int| 0 <= i < p.len() implies key_valid(secs, #[trigger] p[i]) by {
        if i < path.len() {
            assert(p[i] == path[i]);
        }
    }
    let u = keys_upto(secs, secs.len() as int);
    assert forall|i: int| 0 <= i < p.len() implies u.contains(#[trigger] p[i]) by {
        lemma_keys_upto_contains(secs, secs.len() as int, p[i]);
    }
    lemma_distinct_within(p, u);
}

// ---------------------------------------------------------------------------
// Reference resolution (parse)
// ---------------------------------------------------------------------------

pub type Pk = Seq<(Seq<char>, nat, nat)>;

pub type RRes = (Result<SpecJson, SpecError>, Seq<bool>);

pub type CRes = (Result<Option<SpecJson>, SpecError>, Seq<bool>);

pub open spec fn row_ref_text(name: Seq<char>, ri: nat) -> Seq<char> {
    name + seq!['[', 'r', 'o', 'w', ' '] + dec(ri) + seq![']']
}

pub open spec fn at_text(s: Seq<char>) -> Seq<char> {
    seq!['@'] + s
}

pub open spec fn all_digits(s: Seq<char>) -> bool {
    forall|i: int| 0 <= i < s.len() ==> #[trigger] is_ascii_digit(s[i])
}

pub open spec fn word_true() -> Seq<char> {
    seq!['t', 'r', 'u', 'e']
}

pub open spec fn word_false() -> Seq<char> {
    seq!['f', 'a', 'l', 's', 'e']
}

pub open spec fn word_null() -> Seq<char> {
    seq!['n', 'u', 'l', 'l']
}

pub open spec fn word_empty_array() -> Seq<char> {
    seq!['@', '[', ']']
}

/// The value of row `ri` of table `si` as an object, with that row in flight.
pub open spec fn res_object_row(d: SDoc, pk: Pk, path: Seq<Key>, vis: Seq<bool>, si: nat, ri: nat) -> RRes
    decreases total_keys(d.sections) - path.len(), 0nat, 0int,
{
    let key = Key::Row(si, ri);
    if !path_ok(d.sections, path) || !key_valid(d.sections, key) {
        // never reached from a well-formed call
        (Err(SpecError::ScalarRoot), vis)
    } else if path.contains(key) {
        (
            Err(SpecError::CircularReference { reference: row_ref_text(d.sections[si as int].name, ri) }),
            vis,
        )
    } else {
        proof {
            lemma_path_push(d.sections, path, key);
        }
        build_cols(d, pk, path.push(key), vis.update(si as int, true), si, ri, 0, Seq::empty())
    }
}

/// The object built from columns `col..` of row `ri` of table `si`, starting from `obj`.
pub open spec fn build_cols(
    d: SDoc,
    pk: Pk,
    path: Seq<Key>,
    vis: Seq<bool>,
    si: nat,
    ri: nat,
    col: int,
    obj: Seq<(Seq<char>, SpecJson)>,
) -> RRes
    decreases total_keys(d.sections) - path.len(), 3nat, d.sections[si as int].header.len() - col,
{
    let sec = d.sections[si as int];
    let row = sec.rows[ri as int];
    if col < 0 || col >= sec.header.len() {
        (Ok(SpecJson::Object(obj)), vis)
    } else if col == 0 && sec.header[0] == pk_word() {
        build_cols(d, pk, path, vis, si, ri, col + 1, obj)
    } else if col >= row.cells.len() {
        build_cols(d, pk, path, vis, si, ri, col + 1, obj)
    } else {
        let (r, vis2) = cell_value(d, pk, path, vis, row.cells[col], row.line);
        match r {
            Err(e) => (Err(e), vis2),
            Ok(None) => build_cols(d, pk, path, vis2, si, ri, col + 1, obj),
            Ok(Some(v)) => build_cols(
                d,
                pk,
                path,
                vis2,
                si,
                ri,
                col + 1,
                obj_insert(obj, sec.header[col], v),
            ),
        }
    }
}

/// The value of one cell: `None` for an empty unquoted cell.
pub open spec fn cell_value(d: SDoc, pk: Pk, path: Seq<Key>, vis: Seq<bool>, cell: SCell, line: nat) -> CRes
    decreases total_keys(d.sections) - path.len(), 2nat, 0int,
{
    match cell {
        SCell::Quoted(s) => (Ok(Some(SpecJson::Str(s))), vis),
        SCell::Unquoted(s) => {
            if s.len() == 0 {
                (Ok(None), vis)
            } else if s == word_true() {
                (Ok(Some(SpecJson::Bool(true))), vis)
            } else if s == word_false() {
                (Ok(Some(SpecJson::Bool(false))), vis)
            } else if s == word_null() {
                (Ok(Some(SpecJson::Null)), vis)
            } else if s == word_empty_array() {
                (Ok(Some(SpecJson::Array(Seq::empty()))), vis)
            } else if s[0] == '@' {
                let rest = s.subrange(1, s.len() as int);
                if rest.len() > 0 && all_digits(rest) {
                    let (r, v2) = res_row_ref(d, pk, path, vis, rest, line);
                    match r {
                        Ok(x) => (Ok(Some(x)), v2),
                        Err(e) => (Err(e), v2),
                    }
                } else if valid_section_name(rest) {
                    let (r, v2) = res_named_ref(d, pk, path, vis, rest, line);
                    match r {
                        Ok(x) => (Ok(Some(x)), v2),
                        Err(e) => (Err(e), v2),
                    }
                } else {
                    (Err(SpecError::UnresolvedReference { line, reference: s }), vis)
                }
            } else {
                (Ok(Some(spec_bare_value(s))), vis)
            }
        },
    }
}

/// `@N`: the row whose pk is `pks`.
pub open spec fn res_row_ref(d: SDoc, pk: Pk, path: Seq<Key>, vis: Seq<bool>, pks: Seq<char>, line: nat) -> RRes
    decreases total_keys(d.sections) - path.len(), 1nat, 0int,
{
    match pk_lookup(pk, pks) {
        None => (Err(SpecError::UnresolvedReference { line, reference: at_text(pks) }), vis),
        Some((si, ri)) => res_object_row(d, pk, path, vis, si, ri),
    }
}

/// `@name`: the section called `name`, as an array.
pub open spec fn res_named_ref(d: SDoc, pk: Pk, path: Seq<Key>, vis: Seq<bool>, name: Seq<char>, line: nat) -> RRes
    decreases total_keys(d.sections) - path.len(), 1nat, 0int,
{
    match spec_find_section(d.sections, name) {
        None => (Err(SpecError::UnresolvedReference { line, reference: at_text(name) }), vis),
        Some(si) => {
            if d.sections[si as int].array {
                res_array_section(d, pk, path, vis, si)
            } else {
                res_table_as_array(d, pk, path, vis, si)
            }
        },
    }
}

/// An array section: one value per row, with the section in flight.
pub open spec fn res_array_section(d: SDoc, pk: Pk, path: Seq<Key>, vis: Seq<bool>, si: nat) -> RRes
    decreases total_keys(d.sections) - path.len(), 0nat, 0int,
{
    let key = Key::Sec(si);
    if !path_ok(d.sections, path) || !key_valid(d.sections, key) {
        (Err(SpecError::ScalarRoot), vis)
    } else if path.contains(key) {
        (Err(SpecError::CircularReference { reference: at_text(d.sections[si as int].name) }), vis)
    } else {
        proof {
            lemma_path_push(d.sections, path, key);
        }
        build_array_rows(d, pk, path.push(key), vis.update(si as int, true), si, 0, Seq::empty())
    }
}

/// Rows `ri..` of array section `si`, appended to `acc`.
pub open spec fn build_array_rows(
    d: SDoc,
    pk: Pk,
    path: Seq<Key>,
    vis: Seq<bool>,
    si: nat,
    ri: int,
    acc: Seq<SpecJson>,
) -> RRes
    decreases total_keys(d.sections) - path.len(), 3nat, d.sections[si as int].rows.len() - ri,
{
    let sec = d.sections[si as int];
    if ri < 0 || ri >= sec.rows.len() {
        (Ok(SpecJson::Array(acc)), vis)
    } else {
        let row = sec.rows[ri];
        if row.cells.len() == 0 || scell_is_empty_unquoted(row.cells[0]) {
            (Err(SpecError::EmptyArrayRow { line: row.line }), vis)
        } else {
            let (r, vis2) = cell_value(d, pk, path, vis, row.cells[0], row.line);
            match r {
                Err(e) => (Err(e), vis2),
                Ok(None) => (Err(SpecError::EmptyArrayRow { line: row.line }), vis2),
                Ok(Some(v)) => build_array_rows(d, pk, path, vis2, si, ri + 1, acc.push(v)),
            }
        }
    }
}

/// A table section read as an array of its rows' objects, with the section in flight.
pub open spec fn res_table_as_array(d: SDoc, pk: Pk, path: Seq<Key>, vis: Seq<bool>, si: nat) -> RRes
    decreases total_keys(d.sections) - path.len(), 0nat, 0int,
{
    let key = Key::Sec(si);
    if !path_ok(d.sections, path) || !key_valid(d.sections, key) {
        (Err(SpecError::ScalarRoot), vis)
    } else if path.contains(key) {
        (Err(SpecError::CircularReference { reference: at_text(d.sections[si as int].name) }), vis)
    } else {
        proof {
            lemma_path_push(d.sections, path, key);
        }
        build_table_rows(d, pk, path.push(key), vis.update(si as int, true), si, 0, Seq::empty())
    }
}

/// Rows `ri..` of table `si` as objects, appended to `acc`.
pub open spec fn build_table_rows(
    d: SDoc,
    pk: Pk,
    path: Seq<Key>,
    vis: Seq<bool>,
    si: nat,
    ri: int,
    acc: Seq<SpecJson>,
) -> RRes
    decreases total_keys(d.sections) - path.len(), 3nat, d.sections[si as int].rows.len() - ri,
{
    let sec = d.sections[si as int];
    if ri < 0 || ri >= sec.rows.len() {
        (Ok(SpecJson::Array(acc)), vis)
    } else {
        let (r, vis2) = res_object_row(d, pk, path, vis, si, ri as nat);
        match r {
            Err(e) => (Err(e), vis2),
            Ok(v) => build_table_rows(d, pk, path, vis2, si, ri + 1, acc.push(v)),
        }
    }
}

/// The first section (at or after `i`) that resolution never reached.
pub open spec fn first_unvisited(vis: Seq<bool>, i: int) -> Option<nat>
    decreases vis.len() - i,
{
    if i < 0 || i >= vis.len() {
        None
    } else if !vis[i] {
        Some(i as nat)
    } else {
        first_unvisited(vis, i + 1)
    }
}

/// The value of the whole document, from its root section.
pub open spec fn resolve_root(d: SDoc, pk: Pk, vis: Seq<bool>) -> RRes {
    if d.sections.len() == 0 {
        if d.root_array {
            (Ok(SpecJson::Array(Seq::empty())), vis)
        } else {
            (Ok(SpecJson::Object(Seq::empty())), vis)
        }
    } else {
        let vis1 = vis.update(0, true);
        let first = d.sections[0];
        if d.root_array {
            if first.array {
                res_array_section(d, pk, Seq::empty(), vis1, 0)
            } else {
                res_table_as_array(d, pk, Seq::empty(), vis1, 0)
            }
        } else if first.rows.len() == 0 {
            (Ok(SpecJson::Object(Seq::empty())), vis1)
        } else {
            res_object_row(d, pk, Seq::empty(), vis1, 0, 0)
        }
    }
}

/// Resolution of a collected document: the value, or the first error.
pub open spec fn spec_resolve(d: SDoc) -> Result<SpecJson, SpecError> {
    match crate::parser::spec_build_pk_index(d.sections) {
        Err(e) => Err(e),
        Ok(pk) => {
            let (r, vis) = resolve_root(d, pk, Seq::new(d.sections.len(), |i: int| false));
            match r {
                Err(e) => Err(e),
                Ok(v) => match first_unvisited(vis, 0) {
                    Some(i) => Err(SpecError::UnreachableSection { name: d.sections[i as int].name }),
                    None => Ok(v),
                },
            }
        },
    }
}

// ---------------------------------------------------------------------------
// The pk index only names rows of the document
// ---------------------------------------------------------------------------

pub open spec fn pk_entries_valid(pk: Pk, secs: Seq<SSection>) -> bool {
    forall|i: int| 0 <= i < pk.len() ==> key_valid(secs, Key::Row(#[trigger] pk[i].1, pk[i].2))
}

proof fn lemma_pk_rows_valid(secs: Seq<SSection>, si: int, n: int, st: crate::parser::PkState)
    requires
        0 <= si < secs.len(),
        n <= secs[si].rows.len(),
        pk_entries_valid(st.0, secs),
    ensures
        pk_entries_valid(crate::parser::pk_rows(secs, si, n, st).0, secs),
    decreases n,
{
    if n > 0 {
        lemma_pk_rows_valid(secs, si, n - 1, st);
        let prev = crate::parser::pk_rows(secs, si, n - 1, st);
        let next = crate::parser::pk_rows(secs, si, n, st);
        assert forall|i: int| 0 <= i < next.0.len() implies key_valid(
            secs,
            Key::Row(#[trigger] next.0[i].1, next.0[i].2),
        ) by {
            if i < prev.0.len() {
                assert(next.0[i] == prev.0[i]);
            }
        }
    }
}

proof fn lemma_pk_sections_valid(secs: Seq<SSection>, n: int)
    requires
        n <= secs.len(),
    ensures
        pk_entries_valid(crate::parser::pk_sections(secs, n).0, secs),
    decreases n,
{
    if n > 0 {
        lemma_pk_sections_valid(secs, n - 1);
        let st = crate::parser::pk_sections(secs, n - 1);
        if crate::parser::is_pk_table(secs[n - 1]) {
            lemma_pk_rows_valid(secs, n - 1, secs[n - 1].rows.len() as int, st);
        }
    }
}

pub proof fn lemma_pk_collect_valid(secs: Seq<SSection>)
    ensures
        pk_entries_valid(crate::parser::spec_pk_collect(secs).0, secs),
{
    lemma_pk_sections_valid(secs, secs.len() as int);
}

pub proof fn lemma_pk_lookup_valid(pk: Pk, secs: Seq<SSection>, k: Seq<char>)
    requires
        pk_entries_valid(pk, secs),
    ensures
        pk_lookup(pk, k) matches Some((si, ri)) ==> key_valid(secs, Key::Row(si, ri)),
    decreases pk.len(),
{
    if pk.len() > 0 {
        assert(key_valid(secs, Key::Row(pk[0].1, pk[0].2)));
        let rest = pk.drop_first();
        assert forall|i: int| 0 <= i < rest.len() implies key_valid(
            secs,
            Key::Row(#[trigger] rest[i].1, rest[i].2),
        ) by {
            assert(rest[i] == pk[i + 1]);
        }
        lemma_pk_lookup_valid(rest, secs, k);
    }
}

// ---------------------------------------------------------------------------
// Executable resolver
// ---------------------------------------------------------------------------

#[derive(Clone, Copy)]
enum ExecKey {
    Row(usize, usize),
    Sec(usize),
}

impl ExecKey {
    spec fn model(self) -> Key {
        match self {
            ExecKey::Row(a, b) => Key::Row(a as nat, b as nat),
            ExecKey::Sec(a) => Key::Sec(a as nat),
        }
    }
}

spec fn keys_model(v: Seq<ExecKey>) -> Seq<Key> {
    v.map_values(|k: ExecKey| k.model())
}

pub open spec fn json_res_model(r: Result<JsonValue, NormError>) -> Result<SpecJson, SpecError> {
    match r {
        Ok(v) => Ok(v.model()),
        Err(e) => Err(e.model()),
    }
}

pub open spec fn opt_res_model(r: Result<Option<JsonValue>, NormError>) -> Result<
    Option<SpecJson>,
    SpecError,
> {
    match r {
        Ok(Some(v)) => Ok(Some(v.model())),
        Ok(None) => Ok(None),
        Err(e) => Err(e.model()),
    }
}

/// `s` preceded by `@`.
pub(crate) fn at_string(s: &String) -> (r: String)
    ensures
        r@ == at_text(s@),
{
    let mut v: Vec<char> = Vec::new();
    v.push('@');
    push_str_chars(&mut v, s.as_str());
    string_of(&v)
}

/// `name[row N]`.
fn row_ref_string(name: &String, ri: usize) -> (r: String)
    ensures
        r@ == row_ref_text(name@, ri as nat),
{
    let mut v: Vec<char> = Vec::new();
    push_str_chars(&mut v, name.as_str());
    v.push('[');
    v.push('r');
    v.push('o');
    v.push('w');
    v.push(' ');
    push_decimal(&mut v, ri as u128);
    v.push(']');
    assert(v@ =~= row_ref_text(name@, ri as nat));
    string_of(&v)
}

/// Whether `v[a..b)` is all decimal digits.
pub(crate) fn all_digits_range(v: &Vec<char>, a: usize, b: usize) -> (r: bool)
    requires
        a <= b <= v@.len(),
    ensures
        r == all_digits(v@.subrange(a as int, b as int)),
{
    let ghost t = v@.subrange(a as int, b as int);
    let mut i = a;
    while i < b
        invariant
            a <= i <= b <= v@.len(),
            t == v@.subrange(a as int, b as int),
            forall|k: int| 0 <= k < i - a ==> #[trigger] is_ascii_digit(t[k]),
        decreases b - i,
    {
        if !('0' <= v[i] && v[i] <= '9') {
            assert(!is_ascii_digit(t[i - a]));
            return false;
        }
        i += 1;
    }
    true
}

struct Resolver {
    pk_index: PkIndex,
    section_visited: Vec<bool>,
    in_flight: Vec<ExecKey>,
}

impl Resolver {
    spec fn path(&self) -> Seq<Key> {
        keys_model(self.in_flight@)
    }

    spec fn pk(&self) -> Pk {
        self.pk_index.model()
    }

    spec fn wf(&self, d: SDoc) -> bool {
        &&& self.section_visited@.len() == d.sections.len()
        &&& path_ok(d.sections, self.path())
        &&& pk_entries_valid(self.pk(), d.sections)
    }

    fn in_flight_contains(&self, k: ExecKey) -> (r: bool)
        ensures
            r == self.path().contains(k.model()),
    {
        let ghost p = self.path();
        let mut i: usize = 0;
        while i < self.in_flight.len()
            invariant
                i <= self.in_flight@.len(),
                p == self.path(),
                forall|j: int| 0 <= j < i ==> p[j] != k.model(),
            decreases self.in_flight@.len() - i,
        {
            let same = match (self.in_flight[i], k) {
                (ExecKey::Row(a, b), ExecKey::Row(c, e)) => a == c && b == e,
                (ExecKey::Sec(a), ExecKey::Sec(c)) => a == c,
                _ => false,
            };
            assert(p[i as int] == self.in_flight@[i as int].model());
            if same {
                assert(p[i as int] == k.model());
                return true;
            }
            i += 1;
        }
        false
    }

    fn enter(&mut self, k: ExecKey, Ghost(d): Ghost<SDoc>)
        requires
            old(self).wf(d),
            key_valid(d.sections, k.model()),
            !old(self).path().contains(k.model()),
        ensures
            final(self).wf(d),
            final(self).path() == old(self).path().push(k.model()),
            final(self).in_flight@ == old(self).in_flight@.push(k),
            final(self).pk_index == old(self).pk_index,
            final(self).section_visited == old(self).section_visited,
            old(self).path().len() + 1 <= total_keys(d.sections),
    {
        proof {
            lemma_path_push(d.sections, self.path(), k.model());
        }
        self.in_flight.push(k);
        assert(self.path() =~= old(self).path().push(k.model()));
    }

    fn leave(&mut self, Ghost(before): Ghost<Seq<ExecKey>>)
        requires
            old(self).in_flight@.len() == before.len() + 1,
            old(self).in_flight@.drop_last() == before,
        ensures
            final(self).in_flight@ == before,
            final(self).pk_index == old(self).pk_index,
            final(self).section_visited == old(self).section_visited,
    {
        self.in_flight.pop();
    }

    fn mark_visited(&mut self, si: usize)
        requires
            si < old(self).section_visited@.len(),
        ensures
            final(self).section_visited@ == old(self).section_visited@.update(si as int, true),
            final(self).pk_index == old(self).pk_index,
            final(self).in_flight == old(self).in_flight,
    {
        self.section_visited.set(si, true);
    }

    fn resolve_object_row(&mut self, doc: &Document, sec_idx: usize, row_idx: usize) -> (r: Result<
        JsonValue,
        NormError,
    >)
        requires
            old(self).wf(doc.model()),
            key_valid(doc.model().sections, Key::Row(sec_idx as nat, row_idx as nat)),
        ensures
            final(self).wf(doc.model()),
            final(self).in_flight@ == old(self).in_flight@,
            final(self).pk_index == old(self).pk_index,
            (json_res_model(r), final(self).section_visited@) == res_object_row(
                doc.model(),
                old(self).pk(),
                old(self).path(),
                old(self).section_visited@,
                sec_idx as nat,
                row_idx as nat,
            ),
        decreases total_keys(doc.model().sections) - old(self).in_flight@.len(), 0nat, 0int,
    {
        let key = ExecKey::Row(sec_idx, row_idx);
        if self.in_flight_contains(key) {
            let reference = row_ref_string(&doc.sections[sec_idx].name, row_idx);
            return Err(NormError::CircularReference { reference });
        }
        let ghost before = self.in_flight@;
        self.enter(key, Ghost(doc.model()));
        self.mark_visited(sec_idx);
        let result = self.build_object_row(doc, sec_idx, row_idx);
        assert(self.in_flight@.drop_last() =~= before);
        self.leave(Ghost(before));
        result
    }

    fn build_object_row(&mut self, doc: &Document, sec_idx: usize, row_idx: usize) -> (r: Result<
        JsonValue,
        NormError,
    >)
        requires
            old(self).wf(doc.model()),
            key_valid(doc.model().sections, Key::Row(sec_idx as nat, row_idx as nat)),
        ensures
            final(self).wf(doc.model()),
            final(self).in_flight@ == old(self).in_flight@,
            final(self).pk_index == old(self).pk_index,
            (json_res_model(r), final(self).section_visited@) == build_cols(
                doc.model(),
                old(self).pk(),
                old(self).path(),
                old(self).section_visited@,
                sec_idx as nat,
                row_idx as nat,
                0,
                Seq::empty(),
            ),
        decreases total_keys(doc.model().sections) - old(self).in_flight@.len(), 3nat, 0int,
    {
        let ghost d = doc.model();
        let section = &doc.sections[sec_idx];
        let row = &section.rows[row_idx];
        assert(d.sections[sec_idx as int] == section.model());
        assert(section.model().rows[row_idx as int] == row.model());
        let mut obj: Vec<(String, JsonValue)> = Vec::new();
        assert(members_model(obj@) =~= Seq::<(Seq<char>, SpecJson)>::empty());
        let mut col: usize = 0;
        while col < section.header.len()
            invariant
                self.wf(d),
                self.in_flight@ == old(self).in_flight@,
                self.pk_index == old(self).pk_index,
                d == doc.model(),
                sec_idx < doc.sections@.len(),
                section == doc.sections@[sec_idx as int],
                row_idx < section.rows@.len(),
                row == section.rows@[row_idx as int],
                col <= section.header@.len(),
                build_cols(
                    d,
                    old(self).pk(),
                    old(self).path(),
                    old(self).section_visited@,
                    sec_idx as nat,
                    row_idx as nat,
                    0,
                    Seq::empty(),
                ) == build_cols(
                    d,
                    old(self).pk(),
                    old(self).path(),
                    self.section_visited@,
                    sec_idx as nat,
                    row_idx as nat,
                    col as int,
                    members_model(obj@),
                ),
            decreases section.header@.len() - col,
        {
            assert(d.sections[sec_idx as int] == section.model());
            assert(section.model().rows[row_idx as int] == row.model());
            if col == 0 && has_pk_column(section) {
                col += 1;
            } else if col >= row.cells.len() {
                col += 1;
            } else {
                assert(row.model().cells[col as int] == row.cells@[col as int].model());
                assert(section.model().header[col as int] == section.header@[col as int]@);
                match self.cell_to_value(doc, &row.cells[col], row.line) {
                    Err(e) => {
                        return Err(e);
                    },
                    Ok(None) => {},
                    Ok(Some(v)) => {
                        members_insert(&mut obj, section.header[col].clone(), v);
                    },
                }
                col += 1;
            }
        }
        proof {
            lemma_model_object(obj);
        }
        Ok(JsonValue::Object(obj))
    }

    fn cell_to_value(&mut self, doc: &Document, cell: &Cell, line: usize) -> (r: Result<
        Option<JsonValue>,
        NormError,
    >)
        requires
            old(self).wf(doc.model()),
        ensures
            final(self).wf(doc.model()),
            final(self).in_flight@ == old(self).in_flight@,
            final(self).pk_index == old(self).pk_index,
            (opt_res_model(r), final(self).section_visited@) == cell_value(
                doc.model(),
                old(self).pk(),
                old(self).path(),
                old(self).section_visited@,
                cell.model(),
                line as nat,
            ),
        decreases total_keys(doc.model().sections) - old(self).in_flight@.len(), 2nat, 0int,
    {
        match cell {
            Cell::Quoted(s) => Ok(Some(JsonValue::String(s.clone()))),
            Cell::Unquoted(s) => {
                let v = str_chars(s.as_str());
                assert(v@.subrange(0, v@.len() as int) =~= v@);
                if v.len() == 0 {
                    return Ok(None);
                }
                let w_true = vec!['t', 'r', 'u', 'e'];
                assert(w_true@ =~= word_true());
                if range_eq(&v, 0, v.len(), &w_true) {
                    return Ok(Some(JsonValue::Bool(true)));
                }
                let w_false = vec!['f', 'a', 'l', 's', 'e'];
                assert(w_false@ =~= word_false());
                if range_eq(&v, 0, v.len(), &w_false) {
                    return Ok(Some(JsonValue::Bool(false)));
                }
                let w_null = vec!['n', 'u', 'l', 'l'];
                assert(w_null@ =~= word_null());
                if range_eq(&v, 0, v.len(), &w_null) {
                    return Ok(Some(JsonValue::Null));
                }
                let w_arr = vec!['@', '[', ']'];
                assert(w_arr@ =~= word_empty_array());
                if range_eq(&v, 0, v.len(), &w_arr) {
                    let items: Vec<JsonValue> = Vec::new();
                    proof {
                        lemma_model_array(items);
                    }
                    assert(items_model(items@) =~= Seq::<SpecJson>::empty());
                    return Ok(Some(JsonValue::Array(items)));
                }
                if v[0] == '@' {
                    let rest = chars_to_string(&v, 1, v.len());
                    if v.len() > 1 && all_digits_range(&v, 1, v.len()) {
                        match self.resolve_row_ref(doc, &rest, line) {
                            Ok(x) => Ok(Some(x)),
                            Err(e) => Err(e),
                        }
                    } else if valid_name_range(&v, 1, v.len()) {
                        match self.resolve_named_ref(doc, &rest, line) {
                            Ok(x) => Ok(Some(x)),
                            Err(e) => Err(e),
                        }
                    } else {
                        Err(NormError::UnresolvedReference { line, reference: s.clone() })
                    }
                } else {
                    Ok(Some(parse_bare_value(s)))
                }
            },
        }
    }

    fn resolve_row_ref(&mut self, doc: &Document, pk: &String, line: usize) -> (r: Result<
        JsonValue,
        NormError,
    >)
        requires
            old(self).wf(doc.model()),
        ensures
            final(self).wf(doc.model()),
            final(self).in_flight@ == old(self).in_flight@,
            final(self).pk_index == old(self).pk_index,
            (json_res_model(r), final(self).section_visited@) == res_row_ref(
                doc.model(),
                old(self).pk(),
                old(self).path(),
                old(self).section_visited@,
                pk@,
                line as nat,
            ),
        decreases total_keys(doc.model().sections) - old(self).in_flight@.len(), 1nat, 0int,
    {
        proof {
            lemma_pk_lookup_valid(self.pk(), doc.model().sections, pk@);
        }
        match self.pk_index.get(pk) {
            None => Err(NormError::UnresolvedReference { line, reference: at_string(pk) }),
            Some((sec_idx, row_idx)) => self.resolve_object_row(doc, sec_idx, row_idx),
        }
    }

    fn resolve_named_ref(&mut self, doc: &Document, name: &String, line: usize) -> (r: Result<
        JsonValue,
        NormError,
    >)
        requires
            old(self).wf(doc.model()),
        ensures
            final(self).wf(doc.model()),
            final(self).in_flight@ == old(self).in_flight@,
            final(self).pk_index == old(self).pk_index,
            (json_res_model(r), final(self).section_visited@) == res_named_ref(
                doc.model(),
                old(self).pk(),
                old(self).path(),
                old(self).section_visited@,
                name@,
                line as nat,
            ),
        decreases total_keys(doc.model().sections) - old(self).in_flight@.len(), 1nat, 0int,
    {
        match doc.find_section(name) {
            None => Err(NormError::UnresolvedReference { line, reference: at_string(name) }),
            Some((sec_idx, section)) => {
                assert(doc.model().sections[sec_idx as int] == section.model());
                if section.array {
                    self.resolve_array_section(doc, sec_idx)
                } else {
                    self.resolve_table_as_array(doc, sec_idx)
                }
            },
        }
    }

    fn resolve_array_section(&mut self, doc: &Document, sec_idx: usize) -> (r: Result<
        JsonValue,
        NormError,
    >)
        requires
            old(self).wf(doc.model()),
            sec_idx < doc.sections@.len(),
        ensures
            final(self).wf(doc.model()),
            final(self).in_flight@ == old(self).in_flight@,
            final(self).pk_index == old(self).pk_index,
            (json_res_model(r), final(self).section_visited@) == res_array_section(
                doc.model(),
                old(self).pk(),
                old(self).path(),
                old(self).section_visited@,
                sec_idx as nat,
            ),
        decreases total_keys(doc.model().sections) - old(self).in_flight@.len(), 0nat, 0int,
    {
        let key = ExecKey::Sec(sec_idx);
        if self.in_flight_contains(key) {
            assert(doc.model().sections[sec_idx as int] == doc.sections@[sec_idx as int].model());
            let reference = at_string(&doc.sections[sec_idx].name);
            return Err(NormError::CircularReference { reference });
        }
        let ghost before = self.in_flight@;
        self.enter(key, Ghost(doc.model()));
        self.mark_visited(sec_idx);
        let result = self.build_array_section(doc, sec_idx);
        assert(self.in_flight@.drop_last() =~= before);
        self.leave(Ghost(before));
        result
    }

    fn build_array_section(&mut self, doc: &Document, sec_idx: usize) -> (r: Result<
        JsonValue,
        NormError,
    >)
        requires
            old(self).wf(doc.model()),
            sec_idx < doc.sections@.len(),
        ensures
            final(self).wf(doc.model()),
            final(self).in_flight@ == old(self).in_flight@,
            final(self).pk_index == old(self).pk_index,
            (json_res_model(r), final(self).section_visited@) == build_array_rows(
                doc.model(),
                old(self).pk(),
                old(self).path(),
                old(self).section_visited@,
                sec_idx as nat,
                0,
                Seq::empty(),
            ),
        decreases total_keys(doc.model().sections) - old(self).in_flight@.len(), 3nat, 0int,
    {
        let ghost d = doc.model();
        let section = &doc.sections[sec_idx];
        assert(d.sections[sec_idx as int] == section.model());
        let mut arr: Vec<JsonValue> = Vec::new();
        assert(items_model(arr@) =~= Seq::<SpecJson>::empty());
        let mut ri: usize = 0;
        while ri < section.rows.len()
            invariant
                self.wf(d),
                self.in_flight@ == old(self).in_flight@,
                self.pk_index == old(self).pk_index,
                d == doc.model(),
                sec_idx < doc.sections@.len(),
                section == doc.sections@[sec_idx as int],
                ri <= section.rows@.len(),
                build_array_rows(
                    d,
                    old(self).pk(),
                    old(self).path(),
                    old(self).section_visited@,
                    sec_idx as nat,
                    0,
                    Seq::empty(),
                ) == build_array_rows(
                    d,
                    old(self).pk(),
                    old(self).path(),
                    self.section_visited@,
                    sec_idx as nat,
                    ri as int,
                    items_model(arr@),
                ),
            decreases section.rows@.len() - ri,
        {
            assert(d.sections[sec_idx as int] == section.model());
            let row = &section.rows[ri];
            assert(section.model().rows[ri as int] == row.model());
            if row.cells.len() == 0 {
                return Err(NormError::EmptyArrayRow { line: row.line });
            }
            assert(row.model().cells[0] == row.cells@[0].model());
            let cell = &row.cells[0];
            if cell.is_empty_unquoted() {
                return Err(NormError::EmptyArrayRow { line: row.line });
            }
            match self.cell_to_value(doc, cell, row.line) {
                Err(e) => {
                    return Err(e);
                },
                Ok(None) => {
                    return Err(NormError::EmptyArrayRow { line: row.line });
                },
                Ok(Some(v)) => {
                    let ghost before = items_model(arr@);
                    let ghost vm = v.model();
                    arr.push(v);
                    assert(items_model(arr@) =~= before.push(vm));
                },
            }
            ri += 1;
        }
        proof {
            lemma_model_array(arr);
        }
        Ok(JsonValue::Array(arr))
    }

    fn resolve_table_as_array(&mut self, doc: &Document, sec_idx: usize) -> (r: Result<
        JsonValue,
        NormError,
    >)
        requires
            old(self).wf(doc.model()),
            sec_idx < doc.sections@.len(),
        ensures
            final(self).wf(doc.model()),
            final(self).in_flight@ == old(self).in_flight@,
            final(self).pk_index == old(self).pk_index,
            (json_res_model(r), final(self).section_visited@) == res_table_as_array(
                doc.model(),
                old(self).pk(),
                old(self).path(),
                old(self).section_visited@,
                sec_idx as nat,
            ),
        decreases total_keys(doc.model().sections) - old(self).in_flight@.len(), 0nat, 0int,
    {
        let key = ExecKey::Sec(sec_idx);
        if self.in_flight_contains(key) {
            assert(doc.model().sections[sec_idx as int] == doc.sections@[sec_idx as int].model());
            let reference = at_string(&doc.sections[sec_idx].name);
            return Err(NormError::CircularReference { reference });
        }
        let ghost before = self.in_flight@;
        self.enter(key, Ghost(doc.model()));
        self.mark_visited(sec_idx);
        let result = self.build_table_as_array(doc, sec_idx);
        assert(self.in_flight@.drop_last() =~= before);
        self.leave(Ghost(before));
        result
    }

    fn build_table_as_array(&mut self, doc: &Document, sec_idx: usize) -> (r: Result<
        JsonValue,
        NormError,
    >)
        requires
            old(self).wf(doc.model()),
            sec_idx < doc.sections@.len(),
        ensures
            final(self).wf(doc.model()),
            final(self).in_flight@ == old(self).in_flight@,
            final(self).pk_index == old(self).pk_index,
            (json_res_model(r), final(self).section_visited@) == build_table_rows(
                doc.model(),
                old(self).pk(),
                old(self).path(),
                old(self).section_visited@,
                sec_idx as nat,
                0,
                Seq::empty(),
            ),
        decreases total_keys(doc.model().sections) - old(self).in_flight@.len(), 3nat, 0int,
    {
        let ghost d = doc.model();
        assert(d.sections[sec_idx as int] == doc.sections@[sec_idx as int].model());
        let n = doc.sections[sec_idx].rows.len();
        let mut arr: Vec<JsonValue> = Vec::new();
        assert(items_model(arr@) =~= Seq::<SpecJson>::empty());
        let mut ri: usize = 0;
        while ri < n
            invariant
                self.wf(d),
                self.in_flight@ == old(self).in_flight@,
                self.pk_index == old(self).pk_index,
                d == doc.model(),
                sec_idx < doc.sections@.len(),
                n == d.sections[sec_idx as int].rows.len(),
                ri <= n,
                build_table_rows(
                    d,
                    old(self).pk(),
                    old(self).path(),
                    old(self).section_visited@,
                    sec_idx as nat,
                    0,
                    Seq::empty(),
                ) == build_table_rows(
                    d,
                    old(self).pk(),
                    old(self).path(),
                    self.section_visited@,
                    sec_idx as nat,
                    ri as int,
                    items_model(arr@),
                ),
            decreases n - ri,
        {
            match self.resolve_object_row(doc, sec_idx, ri) {
                Err(e) => {
                    return Err(e);
                },
                Ok(v) => {
                    let ghost before = items_model(arr@);
                    let ghost vm = v.model();
                    arr.push(v);
                    assert(items_model(arr@) =~= before.push(vm));
                },
            }
            ri += 1;
        }
        proof {
            lemma_model_array(arr);
        }
        Ok(JsonValue::Array(arr))
    }

    fn resolve_root(&mut self, doc: &Document) -> (r: Result<JsonValue, NormError>)
        requires
            old(self).wf(doc.model()),
            old(self).path().len() == 0,
        ensures
            (json_res_model(r), final(self).section_visited@) == resolve_root(
                doc.model(),
                old(self).pk(),
                old(self).section_visited@,
            ),
            final(self).section_visited@.len() == old(self).section_visited@.len(),
    {
        let ghost d = doc.model();
        assert(old(self).path() =~= Seq::<Key>::empty());
        match doc.root_section() {
            None => {
                if doc.root_array {
                    let items: Vec<JsonValue> = Vec::new();
                    proof {
                        lemma_model_array(items);
                    }
                    assert(items_model(items@) =~= Seq::<SpecJson>::empty());
                    Ok(JsonValue::Array(items))
                } else {
                    let members: Vec<(String, JsonValue)> = Vec::new();
                    proof {
                        lemma_model_object(members);
                    }
                    assert(members_model(members@) =~= Seq::<(Seq<char>, SpecJson)>::empty());
                    Ok(JsonValue::Object(members))
                }
            },
            Some(first) => {
                assert(d.sections[0] == first.model());
                self.mark_visited(0);
                if doc.root_array {
                    if first.array {
                        self.resolve_array_section(doc, 0)
                    } else {
                        self.resolve_table_as_array(doc, 0)
                    }
                } else {
                    if first.rows.len() == 0 {
                        let members: Vec<(String, JsonValue)> = Vec::new();
                        proof {
                            lemma_model_object(members);
                        }
                        assert(members_model(members@) =~= Seq::<(Seq<char>, SpecJson)>::empty());
                        return Ok(JsonValue::Object(members));
                    }
                    self.resolve_object_row(doc, 0, 0)
                }
            },
        }
    }
}

/// Resolves every reference of a collected document, from the root.
#[verifier::loop_isolation(false)]
pub fn resolve(doc: &Document) -> (r: Result<JsonValue, NormError>)
    ensures
        json_res_model(r) == spec_resolve(doc.model()),
{
    let ghost d = doc.model();
    let pk_index = match build_pk_index(&doc.sections) {
        Ok(m) => m,
        Err(e) => {
            return Err(e);
        },
    };
    proof {
        lemma_pk_collect_valid(d.sections);
    }
    let n = doc.sections.len();
    let mut r = Resolver { pk_index, section_visited: vec![false; n], in_flight: Vec::new() };
    assert(r.section_visited@ =~= Seq::new(d.sections.len(), |i: int| false));
    assert(r.path() =~= Seq::<Key>::empty());
    let root_value = match r.resolve_root(doc) {
        Ok(v) => v,
        Err(e) => {
            return Err(e);
        },
    };
    let ghost vis = r.section_visited@;
    let mut idx: usize = 0;
    while idx < n
        invariant
            idx <= n,
            n == d.sections.len(),
            d == doc.model(),
            vis == r.section_visited@,
            vis.len() == n,
            first_unvisited(vis, 0) == first_unvisited(vis, idx as int),
        decreases n - idx,
    {
        if !r.section_visited[idx] {
            assert(d.sections[idx as int] == doc.sections@[idx as int].model());
            assert(first_unvisited(vis, 0) == Some(idx as nat));
            assert(spec_resolve(d) == Err::<SpecJson, SpecError>(SpecError::UnreachableSection { name: d.sections[idx as int].name }));
            return Err(NormError::UnreachableSection { name: doc.sections[idx].name.clone() });
        }
        idx += 1;
    }
    Ok(root_value)
}

// ---------------------------------------------------------------------------
// Validation walk: the same traversal, collecting every error
// ---------------------------------------------------------------------------

/// Errors met so far, and which sections were reached.
pub type WSt = (Seq<SpecError>, Seq<bool>);

pub open spec fn walk_start(sec: SSection) -> int {
    if sec.header.len() > 0 && sec.header[0] == pk_word() {
        1
    } else {
        0
    }
}

pub open spec fn walk_object_row(d: SDoc, pk: Pk, path: Seq<Key>, st: WSt, si: nat, ri: nat) -> WSt
    decreases total_keys(d.sections) - path.len(), 0nat, 0int,
{
    let key = Key::Row(si, ri);
    if !path_ok(d.sections, path) || !key_valid(d.sections, key) {
        st
    } else if path.contains(key) {
        (
            st.0.push(
                SpecError::CircularReference { reference: row_ref_text(d.sections[si as int].name, ri) },
            ),
            st.1,
        )
    } else {
        proof {
            lemma_path_push(d.sections, path, key);
        }
        walk_cols(
            d,
            pk,
            path.push(key),
            (st.0, st.1.update(si as int, true)),
            si,
            ri,
            walk_start(d.sections[si as int]),
        )
    }
}

pub open spec fn walk_cols(d: SDoc, pk: Pk, path: Seq<Key>, st: WSt, si: nat, ri: nat, col: int) -> WSt
    decreases total_keys(d.sections) - path.len(), 3nat, d.sections[si as int].header.len() - col,
{
    let sec = d.sections[si as int];
    let row = sec.rows[ri as int];
    if col < 0 || col >= sec.header.len() {
        st
    } else if col >= row.cells.len() {
        walk_cols(d, pk, path, st, si, ri, col + 1)
    } else {
        walk_cols(d, pk, path, walk_cell(d, pk, path, st, row.cells[col], row.line), si, ri, col + 1)
    }
}

pub open spec fn walk_cell(d: SDoc, pk: Pk, path: Seq<Key>, st: WSt, cell: SCell, line: nat) -> WSt
    decreases total_keys(d.sections) - path.len(), 2nat, 0int,
{
    match cell {
        SCell::Quoted(_) => st,
        SCell::Unquoted(s) => {
            if s.len() == 0 || s == word_true() || s == word_false() || s == word_null() || s
                == word_empty_array() {
                st
            } else if s[0] != '@' {
                st
            } else {
                let rest = s.subrange(1, s.len() as int);
                if rest.len() > 0 && all_digits(rest) {
                    walk_row_ref(d, pk, path, st, rest, line)
                } else if valid_section_name(rest) {
                    walk_named_ref(d, pk, path, st, rest, line)
                } else {
                    (st.0.push(SpecError::UnresolvedReference { line, reference: s }), st.1)
                }
            }
        },
    }
}

pub open spec fn walk_row_ref(d: SDoc, pk: Pk, path: Seq<Key>, st: WSt, pks: Seq<char>, line: nat) -> WSt
    decreases total_keys(d.sections) - path.len(), 1nat, 0int,
{
    match pk_lookup(pk, pks) {
        None => (st.0.push(SpecError::UnresolvedReference { line, reference: at_text(pks) }), st.1),
        Some((si, ri)) => walk_object_row(d, pk, path, st, si, ri),
    }
}

pub open spec fn walk_named_ref(d: SDoc, pk: Pk, path: Seq<Key>, st: WSt, name: Seq<char>, line: nat) -> WSt
    decreases total_keys(d.sections) - path.len(), 1nat, 0int,
{
    match spec_find_section(d.sections, name) {
        None => (st.0.push(SpecError::UnresolvedReference { line, reference: at_text(name) }), st.1),
        Some(si) => {
            if d.sections[si as int].array {
                walk_array_section(d, pk, path, st, si)
            } else {
                walk_table_as_array(d, pk, path, st, si)
            }
        },
    }
}

pub open spec fn walk_array_section(d: SDoc, pk: Pk, path: Seq<Key>, st: WSt, si: nat) -> WSt
    decreases total_keys(d.sections) - path.len(), 0nat, 0int,
{
    let key = Key::Sec(si);
    if !path_ok(d.sections, path) || !key_valid(d.sections, key) {
        st
    } else if path.contains(key) {
        (
            st.0.push(SpecError::CircularReference { reference: at_text(d.sections[si as int].name) }),
            st.1,
        )
    } else {
        proof {
            lemma_path_push(d.sections, path, key);
        }
        walk_array_rows(d, pk, path.push(key), (st.0, st.1.update(si as int, true)), si, 0)
    }
}

pub open spec fn walk_array_rows(d: SDoc, pk: Pk, path: Seq<Key>, st: WSt, si: nat, ri: int) -> WSt
    decreases total_keys(d.sections) - path.len(), 3nat, d.sections[si as int].rows.len() - ri,
{
    let sec = d.sections[si as int];
    if ri < 0 || ri >= sec.rows.len() {
        st
    } else if sec.rows[ri].cells.len() == 0 || scell_is_empty_unquoted(sec.rows[ri].cells[0]) {
        walk_array_rows(
            d,
            pk,
            path,
            (st.0.push(SpecError::EmptyArrayRow { line: sec.rows[ri].line }), st.1),
            si,
            ri + 1,
        )
    } else {
        walk_array_rows(
            d,
            pk,
            path,
            walk_cell(d, pk, path, st, sec.rows[ri].cells[0], sec.rows[ri].line),
            si,
            ri + 1,
        )
    }
}

pub open spec fn walk_table_as_array(d: SDoc, pk: Pk, path: Seq<Key>, st: WSt, si: nat) -> WSt
    decreases total_keys(d.sections) - path.len(), 0nat, 0int,
{
    let key = Key::Sec(si);
    if !path_ok(d.sections, path) || !key_valid(d.sections, key) {
        st
    } else if path.contains(key) {
        (
            st.0.push(SpecError::CircularReference { reference: at_text(d.sections[si as int].name) }),
            st.1,
        )
    } else {
        proof {
            lemma_path_push(d.sections, path, key);
        }
        walk_table_rows(d, pk, path.push(key), (st.0, st.1.update(si as int, true)), si, 0)
    }
}

pub open spec fn walk_table_rows(d: SDoc, pk: Pk, path: Seq<Key>, st: WSt, si: nat, ri: int) -> WSt
    decreases total_keys(d.sections) - path.len(), 3nat, d.sections[si as int].rows.len() - ri,
{
    let sec = d.sections[si as int];
    if ri < 0 || ri >= sec.rows.len() {
        st
    } else {
        walk_table_rows(d, pk, path, walk_object_row(d, pk, path, st, si, ri as nat), si, ri + 1)
    }
}

/// The walk from the root, which enters the first section as resolution does: an array
/// section, a table read as an array (for an array root), or the rows of the root table.
pub open spec fn walk_root(d: SDoc, pk: Pk, st: WSt) -> WSt {
    if d.sections.len() == 0 {
        st
    } else {
        let st1 = (st.0, st.1.update(0, true));
        if d.sections[0].array {
            walk_array_section(d, pk, Seq::empty(), st1, 0)
        } else if d.root_array {
            walk_table_as_array(d, pk, Seq::empty(), st1, 0)
        } else {
            walk_table_rows(d, pk, Seq::empty(), st1, 0, 0)
        }
    }
}

/// One error per section (among the first `n`) that the walk never reached.
pub open spec fn unreachable_errors(secs: Seq<SSection>, vis: Seq<bool>, n: int) -> Seq<SpecError>
    decreases n,
{
    if n <= 0 {
        Seq::empty()
    } else if !vis[n - 1] {
        unreachable_errors(secs, vis, n - 1).push(SpecError::UnreachableSection { name: secs[n - 1].name })
    } else {
        unreachable_errors(secs, vis, n - 1)
    }
}

struct ValidateWalker {
    pk_index: PkIndex,
    section_visited: Vec<bool>,
    in_flight: Vec<ExecKey>,
    errors: Vec<NormError>,
}

impl ValidateWalker {
    spec fn path(&self) -> Seq<Key> {
        keys_model(self.in_flight@)
    }

    spec fn pk(&self) -> Pk {
        self.pk_index.model()
    }

    spec fn st(&self) -> WSt {
        (errors_model(self.errors@), self.section_visited@)
    }

    spec fn wf(&self, d: SDoc) -> bool {
        &&& self.section_visited@.len() == d.sections.len()
        &&& path_ok(d.sections, self.path())
        &&& pk_entries_valid(self.pk(), d.sections)
    }

    fn new(section_count: usize, pk_index: PkIndex) -> (r: Self)
        ensures
            r.section_visited@ == Seq::new(section_count as nat, |i: int| false),
            r.in_flight@.len() == 0,
            r.errors@.len() == 0,
            r.pk_index == pk_index,
    {
        let r = ValidateWalker {
            pk_index,
            section_visited: vec![false; section_count],
            in_flight: Vec::new(),
            errors: Vec::new(),
        };
        assert(r.section_visited@ =~= Seq::new(section_count as nat, |i: int| false));
        r
    }

    fn push_error(&mut self, e: NormError)
        ensures
            final(self).st() == (old(self).st().0.push(e.model()), old(self).st().1),
            final(self).pk_index == old(self).pk_index,
            final(self).in_flight == old(self).in_flight,
            final(self).section_visited == old(self).section_visited,
    {
        let ghost before = self.errors@;
        self.errors.push(e);
        assert(errors_model(self.errors@) =~= errors_model(before).push(e.model()));
    }

    fn in_flight_contains(&self, k: ExecKey) -> (r: bool)
        ensures
            r == self.path().contains(k.model()),
    {
        let ghost p = self.path();
        let mut i: usize = 0;
        while i < self.in_flight.len()
            invariant
                i <= self.in_flight@.len(),
                p == self.path(),
                forall|j: int| 0 <= j < i ==> p[j] != k.model(),
            decreases self.in_flight@.len() - i,
        {
            let same = match (self.in_flight[i], k) {
                (ExecKey::Row(a, b), ExecKey::Row(c, e)) => a == c && b == e,
                (ExecKey::Sec(a), ExecKey::Sec(c)) => a == c,
                _ => false,
            };
            assert(p[i as int] == self.in_flight@[i as int].model());
            if same {
                assert(p[i as int] == k.model());
                return true;
            }
            i += 1;
        }
        false
    }

    fn enter(&mut self, k: ExecKey, Ghost(d): Ghost<SDoc>)
        requires
            old(self).wf(d),
            key_valid(d.sections, k.model()),
            !old(self).path().contains(k.model()),
        ensures
            final(self).wf(d),
            final(self).path() == old(self).path().push(k.model()),
            final(self).in_flight@ == old(self).in_flight@.push(k),
            final(self).pk_index == old(self).pk_index,
            final(self).section_visited == old(self).section_visited,
            final(self).errors == old(self).errors,
            old(self).path().len() + 1 <= total_keys(d.sections),
    {
        proof {
            lemma_path_push(d.sections, self.path(), k.model());
        }
        self.in_flight.push(k);
        assert(self.path() =~= old(self).path().push(k.model()));
    }

    fn leave(&mut self, Ghost(before): Ghost<Seq<ExecKey>>)
        requires
            old(self).in_flight@.len() == before.len() + 1,
            old(self).in_flight@.drop_last() == before,
        ensures
            final(self).in_flight@ == before,
            final(self).pk_index == old(self).pk_index,
            final(self).section_visited == old(self).section_visited,
            final(self).errors == old(self).errors,
    {
        self.in_flight.pop();
    }

    fn mark_visited(&mut self, si: usize)
        requires
            si < old(self).section_visited@.len(),
        ensures
            final(self).section_visited@ == old(self).section_visited@.update(si as int, true),
            final(self).pk_index == old(self).pk_index,
            final(self).in_flight == old(self).in_flight,
            final(self).errors == old(self).errors,
    {
        self.section_visited.set(si, true);
    }

    fn walk_root(&mut self, doc: &Document)
        requires
            old(self).wf(doc.model()),
            old(self).path().len() == 0,
        ensures
            final(self).st() == walk_root(doc.model(), old(self).pk(), old(self).st()),
            final(self).section_visited@.len() == old(self).section_visited@.len(),
    {
        assert(old(self).path() =~= Seq::<Key>::empty());
        if doc.sections.len() == 0 {
            return;
        }
        let ghost d = doc.model();
        assert(d.sections[0] == doc.sections@[0].model());
        self.mark_visited(0);
        if doc.sections[0].array {
            self.walk_array_section(doc, 0);
        } else if doc.root_array {
            self.walk_table_as_array(doc, 0);
        } else {
            self.walk_table_rows(doc, 0);
        }
    }

    fn walk_object_row(&mut self, doc: &Document, sec_idx: usize, row_idx: usize)
        requires
            old(self).wf(doc.model()),
            key_valid(doc.model().sections, Key::Row(sec_idx as nat, row_idx as nat)),
        ensures
            final(self).wf(doc.model()),
            final(self).in_flight@ == old(self).in_flight@,
            final(self).pk_index == old(self).pk_index,
            final(self).st() == walk_object_row(
                doc.model(),
                old(self).pk(),
                old(self).path(),
                old(self).st(),
                sec_idx as nat,
                row_idx as nat,
            ),
        decreases total_keys(doc.model().sections) - old(self).in_flight@.len(), 0nat, 0int,
    {
        let ghost d = doc.model();
        let key = ExecKey::Row(sec_idx, row_idx);
        if self.in_flight_contains(key) {
            assert(d.sections[sec_idx as int] == doc.sections@[sec_idx as int].model());
            let reference = row_ref_string(&doc.sections[sec_idx].name, row_idx);
            self.push_error(NormError::CircularReference { reference });
            return;
        }
        let ghost before = self.in_flight@;
        self.enter(key, Ghost(d));
        self.mark_visited(sec_idx);
        let section = &doc.sections[sec_idx];
        assert(d.sections[sec_idx as int] == section.model());
        let start: usize = if has_pk_column(section) {
            1
        } else {
            0
        };
        let header_len = section.header.len();
        let row = &section.rows[row_idx];
        assert(section.model().rows[row_idx as int] == row.model());
        let row_line = row.line;
        let mut col = start;
        let ghost st_path = self.path();
        proof {
            if start > header_len {
                assert(false);
            }
        }
        while col < header_len
            invariant
                self.wf(d),
                self.in_flight@ == before.push(key),
                before == old(self).in_flight@,
                before.len() + 1 <= total_keys(d.sections),
                self.pk_index == old(self).pk_index,
                st_path == self.path(),
                d == doc.model(),
                sec_idx < doc.sections@.len(),
                section == doc.sections@[sec_idx as int],
                row_idx < section.rows@.len(),
                row == section.rows@[row_idx as int],
                row_line == row.line,
                header_len == section.header@.len(),
                start <= col <= header_len,
                walk_object_row(d, old(self).pk(), old(self).path(), old(self).st(), sec_idx as nat, row_idx as nat)
                    == walk_cols(d, old(self).pk(), st_path, self.st(), sec_idx as nat, row_idx as nat, col as int),
            decreases header_len - col,
        {
            assert(d.sections[sec_idx as int] == section.model());
            assert(section.model().rows[row_idx as int] == row.model());
            if col < row.cells.len() {
                assert(row.model().cells[col as int] == row.cells@[col as int].model());
                self.walk_cell(doc, &row.cells[col], row_line);
            }
            col += 1;
        }
        assert(self.in_flight@.drop_last() =~= before);
        self.leave(Ghost(before));
    }

    fn walk_cell(&mut self, doc: &Document, cell: &Cell, line: usize)
        requires
            old(self).wf(doc.model()),
        ensures
            final(self).wf(doc.model()),
            final(self).in_flight@ == old(self).in_flight@,
            final(self).pk_index == old(self).pk_index,
            final(self).st() == walk_cell(
                doc.model(),
                old(self).pk(),
                old(self).path(),
                old(self).st(),
                cell.model(),
                line as nat,
            ),
        decreases total_keys(doc.model().sections) - old(self).in_flight@.len(), 2nat, 0int,
    {
        let s = match cell {
            Cell::Quoted(_) => {
                return;
            },
            Cell::Unquoted(s) => s,
        };
        let v = str_chars(s.as_str());
        assert(v@.subrange(0, v@.len() as int) =~= v@);
        if v.len() == 0 {
            return;
        }
        let w_true = vec!['t', 'r', 'u', 'e'];
        assert(w_true@ =~= word_true());
        let w_false = vec!['f', 'a', 'l', 's', 'e'];
        assert(w_false@ =~= word_false());
        let w_null = vec!['n', 'u', 'l', 'l'];
        assert(w_null@ =~= word_null());
        let w_arr = vec!['@', '[', ']'];
        assert(w_arr@ =~= word_empty_array());
        if range_eq(&v, 0, v.len(), &w_true) || range_eq(&v, 0, v.len(), &w_false) || range_eq(
            &v,
            0,
            v.len(),
            &w_null,
        ) || range_eq(&v, 0, v.len(), &w_arr) {
            return;
        }
        if v[0] != '@' {
            return;
        }
        let rest = chars_to_string(&v, 1, v.len());
        if v.len() > 1 && all_digits_range(&v, 1, v.len()) {
            self.walk_row_ref(doc, &rest, line);
        } else if valid_name_range(&v, 1, v.len()) {
            self.walk_named_ref(doc, &rest, line);
        } else {
            self.push_error(NormError::UnresolvedReference { line, reference: s.clone() });
        }
    }

    fn walk_row_ref(&mut self, doc: &Document, pk: &String, line: usize)
        requires
            old(self).wf(doc.model()),
        ensures
            final(self).wf(doc.model()),
            final(self).in_flight@ == old(self).in_flight@,
            final(self).pk_index == old(self).pk_index,
            final(self).st() == walk_row_ref(
                doc.model(),
                old(self).pk(),
                old(self).path(),
                old(self).st(),
                pk@,
                line as nat,
            ),
        decreases total_keys(doc.model().sections) - old(self).in_flight@.len(), 1nat, 0int,
    {
        proof {
            lemma_pk_lookup_valid(self.pk(), doc.model().sections, pk@);
        }
        match self.pk_index.get(pk) {
            None => {
                self.push_error(NormError::UnresolvedReference { line, reference: at_string(pk) });
            },
            Some((sec_idx, row_idx)) => {
                self.walk_object_row(doc, sec_idx, row_idx);
            },
        }
    }

    fn walk_named_ref(&mut self, doc: &Document, name: &String, line: usize)
        requires
            old(self).wf(doc.model()),
        ensures
            final(self).wf(doc.model()),
            final(self).in_flight@ == old(self).in_flight@,
            final(self).pk_index == old(self).pk_index,
            final(self).st() == walk_named_ref(
                doc.model(),
                old(self).pk(),
                old(self).path(),
                old(self).st(),
                name@,
                line as nat,
            ),
        decreases total_keys(doc.model().sections) - old(self).in_flight@.len(), 1nat, 0int,
    {
        match doc.find_section(name) {
            None => {
                self.push_error(NormError::UnresolvedReference { line, reference: at_string(name) });
            },
            Some((sec_idx, section)) => {
                assert(doc.model().sections[sec_idx as int] == section.model());
                if section.array {
                    self.walk_array_section(doc, sec_idx);
                } else {
                    self.walk_table_as_array(doc, sec_idx);
                }
            },
        }
    }

    fn walk_array_section(&mut self, doc: &Document, sec_idx: usize)
        requires
            old(self).wf(doc.model()),
            sec_idx < doc.sections@.len(),
        ensures
            final(self).wf(doc.model()),
            final(self).in_flight@ == old(self).in_flight@,
            final(self).pk_index == old(self).pk_index,
            final(self).st() == walk_array_section(
                doc.model(),
                old(self).pk(),
                old(self).path(),
                old(self).st(),
                sec_idx as nat,
            ),
        decreases total_keys(doc.model().sections) - old(self).in_flight@.len(), 0nat, 0int,
    {
        let ghost d = doc.model();
        let key = ExecKey::Sec(sec_idx);
        assert(d.sections[sec_idx as int] == doc.sections@[sec_idx as int].model());
        if self.in_flight_contains(key) {
            let reference = at_string(&doc.sections[sec_idx].name);
            self.push_error(NormError::CircularReference { reference });
            return;
        }
        let ghost before = self.in_flight@;
        self.enter(key, Ghost(d));
        self.mark_visited(sec_idx);
        let ghost st_path = self.path();
        let section = &doc.sections[sec_idx];
        let n = section.rows.len();
        let mut row_idx: usize = 0;
        while row_idx < n
            invariant
                self.wf(d),
                self.in_flight@ == before.push(key),
                before == old(self).in_flight@,
                before.len() + 1 <= total_keys(d.sections),
                self.pk_index == old(self).pk_index,
                st_path == self.path(),
                d == doc.model(),
                sec_idx < doc.sections@.len(),
                section == doc.sections@[sec_idx as int],
                n == section.rows@.len(),
                row_idx <= n,
                walk_array_section(d, old(self).pk(), old(self).path(), old(self).st(), sec_idx as nat)
                    == walk_array_rows(d, old(self).pk(), st_path, self.st(), sec_idx as nat, row_idx as int),
            decreases n - row_idx,
        {
            assert(d.sections[sec_idx as int] == section.model());
            let row = &section.rows[row_idx];
            assert(section.model().rows[row_idx as int] == row.model());
            if row.cells.len() == 0 || row.cells[0].is_empty_unquoted() {
                proof {
                    if row.cells.len() > 0 {
                        assert(row.model().cells[0] == row.cells@[0].model());
                    }
                }
                self.push_error(NormError::EmptyArrayRow { line: row.line });
            } else {
                assert(row.model().cells[0] == row.cells@[0].model());
                self.walk_cell(doc, &row.cells[0], row.line);
            }
            row_idx += 1;
        }
        assert(self.in_flight@.drop_last() =~= before);
        self.leave(Ghost(before));
    }

    fn walk_table_as_array(&mut self, doc: &Document, sec_idx: usize)
        requires
            old(self).wf(doc.model()),
            sec_idx < doc.sections@.len(),
        ensures
            final(self).wf(doc.model()),
            final(self).in_flight@ == old(self).in_flight@,
            final(self).pk_index == old(self).pk_index,
            final(self).st() == walk_table_as_array(
                doc.model(),
                old(self).pk(),
                old(self).path(),
                old(self).st(),
                sec_idx as nat,
            ),
        decreases total_keys(doc.model().sections) - old(self).in_flight@.len(), 0nat, 0int,
    {
        let ghost d = doc.model();
        let key = ExecKey::Sec(sec_idx);
        assert(d.sections[sec_idx as int] == doc.sections@[sec_idx as int].model());
        if self.in_flight_contains(key) {
            let reference = at_string(&doc.sections[sec_idx].name);
            self.push_error(NormError::CircularReference { reference });
            return;
        }
        let ghost before = self.in_flight@;
        self.enter(key, Ghost(d));
        self.mark_visited(sec_idx);
        self.walk_table_rows(doc, sec_idx);
        assert(self.in_flight@.drop_last() =~= before);
        self.leave(Ghost(before));
    }

    fn walk_table_rows(&mut self, doc: &Document, sec_idx: usize)
        requires
            old(self).wf(doc.model()),
            sec_idx < doc.sections@.len(),
        ensures
            final(self).wf(doc.model()),
            final(self).in_flight@ == old(self).in_flight@,
            final(self).pk_index == old(self).pk_index,
            final(self).st() == walk_table_rows(
                doc.model(),
                old(self).pk(),
                old(self).path(),
                old(self).st(),
                sec_idx as nat,
                0,
            ),
        decreases total_keys(doc.model().sections) - old(self).in_flight@.len(), 3nat, 0int,
    {
        let ghost d = doc.model();
        assert(d.sections[sec_idx as int] == doc.sections@[sec_idx as int].model());
        let n = doc.sections[sec_idx].rows.len();
        let mut row_idx: usize = 0;
        while row_idx < n
            invariant
                self.wf(d),
                self.in_flight@ == old(self).in_flight@,
                self.pk_index == old(self).pk_index,
                d == doc.model(),
                sec_idx < doc.sections@.len(),
                n == d.sections[sec_idx as int].rows.len(),
                row_idx <= n,
                walk_table_rows(d, old(self).pk(), old(self).path(), old(self).st(), sec_idx as nat, 0)
                    == walk_table_rows(d, old(self).pk(), old(self).path(), self.st(), sec_idx as nat, row_idx as int),
            decreases n - row_idx,
        {
            self.walk_object_row(doc, sec_idx, row_idx);
            row_idx += 1;
        }
    }
}

/// Every reference and reachability error of a collected document, with `pk_index` built
/// from it; `errors` receives them in the order the walk meets them.
pub fn walk_document(doc: &Document, pk_index: PkIndex, errors: &mut Vec<NormError>)
    requires
        pk_index.model() == crate::parser::spec_pk_collect(doc.model().sections).0,
    ensures
        errors_model(final(errors)@) == errors_model(old(errors)@) + walk_errors(
            doc.model(),
            pk_index.model(),
        ),
{
    let ghost d = doc.model();
    let ghost pkm = pk_index.model();
    proof {
        lemma_pk_collect_valid(d.sections);
    }
    let mut walker = ValidateWalker::new(doc.sections.len(), pk_index);
    assert(walker.path() =~= Seq::<Key>::empty());
    assert(errors_model(walker.errors@) =~= Seq::<SpecError>::empty());
    walker.walk_root(doc);
    let ghost fin = walker.st();
    proof {
        lemma_errors_concat(errors@, walker.errors@);
    }
    errors.append(&mut walker.errors);
    let ghost e1 = errors_model(errors@);
    let mut idx: usize = 0;
    while idx < doc.sections.len()
        invariant
            idx <= doc.sections@.len(),
            d == doc.model(),
            walker.section_visited@ == fin.1,
            fin.1.len() == d.sections.len(),
            errors_model(errors@) == e1 + unreachable_errors(d.sections, fin.1, idx as int),
        decreases doc.sections@.len() - idx,
    {
        if !walker.section_visited[idx] {
            assert(d.sections[idx as int] == doc.sections@[idx as int].model());
            let e = NormError::UnreachableSection { name: doc.sections[idx].name.clone() };
            let ghost before = errors@;
            errors.push(e);
            assert(errors_model(errors@) =~= errors_model(before).push(e.model()));
        }
        idx += 1;
    }
}

/// The walk's errors followed by one error per unreached section.
pub open spec fn walk_errors(d: SDoc, pk: Pk) -> Seq<SpecError> {
    let fin = walk_root(d, pk, (Seq::empty(), Seq::new(d.sections.len(), |i: int| false)));
    fin.0 + unreachable_errors(d.sections, fin.1, d.sections.len() as int)
}

proof fn lemma_errors_concat(a: Seq<NormError>, b: Seq<NormError>)
    ensures
        errors_model(a + b) == errors_model(a) + errors_model(b),
{
    assert(errors_model(a + b) =~= errors_model(a) + errors_model(b));
}

} // verus!
