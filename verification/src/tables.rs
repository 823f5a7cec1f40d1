//! An array of objects of scalars, written by the encoder as one table, reads back as an array of
//! as many objects, each with the members of its item in the order of the table's columns.
use vstd::prelude::*;

use crate::document::{SDoc, SRow, SSection};
use crate::encoder::{
    SKind, SPlan, SPlanCell, SPlanRow, SPlanSection, SRole, all_objects, column_text,
    data_word, empty_section, find_field, header_parts, insert_front, join_comma, merge_columns,
    merge_row, plan_init, plan_root, render, reserve_name, root_object_items, row_parts, rows_text,
};
use crate::json::SpecJson;
use crate::lexer::{SCell, SToken, lex_from, parse_record};
use crate::nested::{flat_ok, lead_ok};
use crate::readback::{field_reads, no_nul, writable_scalar, written_cell};
use crate::roundtrip::{distinct_keys, is_scalar, lemma_build_scalar_fields, value_fields};

verus! {

// ---------------------------------------------------------------------------
// The columns of the table
// ---------------------------------------------------------------------------

pub open spec fn members_of(x: SpecJson) -> Seq<(Seq<char>, SpecJson)> {
    match x {
        SpecJson::Object(m) => m,
        _ => Seq::empty(),
    }
}

/// The columns after merging the fields of the first `j` items.
pub open spec fn table_columns(items: Seq<SpecJson>, j: int) -> Seq<Seq<char>>
    decreases j,
{
    if j <= 0 {
        Seq::empty()
    } else {
        merge_columns(table_columns(items, j - 1), value_fields(members_of(items[j - 1])))
    }
}

/// The table section after the first `j` items.
pub open spec fn table_section(items: Seq<SpecJson>, j: int) -> SPlanSection {
    SPlanSection {
        name: data_word(),
        kind: SKind::Table,
        role: SRole::ArrayOfObjects,
        has_pk_column: false,
        data_columns: table_columns(items, j),
        rows: Seq::new(j as nat, |i: int| SPlanRow { pk: None, fields: value_fields(members_of(items[i])) }),
        values: Seq::empty(),
    }
}

/// Objects of writable scalars, at least one.
pub open spec fn objects_ok(items: Seq<SpecJson>) -> bool {
    &&& items.len() > 0
    &&& forall|j: int| 0 <= j < items.len() ==> (#[trigger] items[j]) is Object && flat_ok(members_of(items[j]))
}

proof fn lemma_table_items(p: SPlan, items: Seq<SpecJson>, j: int)
    requires
        objects_ok(items),
        0 <= j <= items.len(),
        !crate::encoder::pk_first(full_table(items)),
    ensures
        root_object_items(p, items, j, table_section(items, j)) == insert_front(p, table_section(items, items.len() as int)),
    decreases items.len() - j,
{
    if j >= items.len() {
        crate::encoder::lemma_guard_pk_off(p, full_table(items));
    } else {
        let x = items[j];
        assert(x is Object && flat_ok(members_of(x)));
        let o = members_of(x);
        assert forall|k: int| 0 <= k < o.len() implies is_scalar(#[trigger] o[k].1) by {
            assert(writable_scalar(o[k].1));
        }
        lemma_build_scalar_fields(p, o, 0, Seq::empty());
        assert(Seq::<(Seq<char>, SPlanCell)>::empty() + value_fields(o).subrange(0, o.len() as int) =~= value_fields(o));
        let row = SPlanRow { pk: None, fields: value_fields(o) };
        assert(merge_row(table_section(items, j), row) =~= table_section(items, j + 1)) by {
            assert(table_section(items, j).rows.push(row) =~= table_section(items, j + 1).rows);
        }
        lemma_table_items(p, items, j + 1);
    }
}

/// The plan of an array of objects of scalars: one table section.
proof fn lemma_table_plan(items: Seq<SpecJson>)
    requires
        objects_ok(items),
        !crate::encoder::pk_first(full_table(items)),
    ensures
        plan_root(SpecJson::Array(items)).sections == seq![table_section(items, items.len() as int)],
        plan_root(SpecJson::Array(items)).root_array,
{
    let dw = data_word();
    assert(crate::encoder::sanitise(dw) =~= dw) by {
        assert(crate::lexer::is_ascii_alpha(dw[0]));
        assert(crate::lexer::is_name_char(dw[1]));
        assert(crate::lexer::is_name_char(dw[2]));
        assert(crate::lexer::is_name_char(dw[3]));
    }
    let (p0, r) = reserve_name(plan_init(), dw);
    assert(r == dw);
    let p1 = SPlan { root_array: true, ..p0 };
    assert(all_objects(items)) by {
        assert forall|i: int| 0 <= i < items.len() implies #[trigger] crate::encoder::is_object(items[i]) by {
            assert(items[i] is Object);
        }
    }
    assert(table_section(items, 0) == empty_section(dw, SKind::Table, SRole::ArrayOfObjects, false)) by {
        assert(table_section(items, 0).rows =~= Seq::<SPlanRow>::empty());
    }
    lemma_table_items(p1, items, 0);
    assert(plan_root(SpecJson::Array(items)).sections =~= seq![table_section(items, items.len() as int)]);
}

/// Merging fields into columns: no column twice, the old columns and every field name are
/// present, and nothing else.
proof fn lemma_merge_props(cols: Seq<Seq<char>>, fields: Seq<(Seq<char>, SPlanCell)>)
    requires
        cols.no_duplicates(),
    ensures
        merge_columns(cols, fields).no_duplicates(),
        forall|c: Seq<char>| cols.contains(c) ==> merge_columns(cols, fields).contains(c),
        forall|i: int| 0 <= i < fields.len() ==> merge_columns(cols, fields).contains(#[trigger] fields[i].0),
        forall|c: Seq<char>|
            merge_columns(cols, fields).contains(c) ==> cols.contains(c) || exists|i: int|
                0 <= i < fields.len() && #[trigger] fields[i].0 == c,
    decreases fields.len(),
{
    if fields.len() > 0 {
        let init = fields.drop_last();
        lemma_merge_props(cols, init);
        let prev = merge_columns(cols, init);
        let r = merge_columns(cols, fields);
        let k = fields.last().0;
        if !prev.contains(k) {
            assert(r == prev.push(k));
            assert forall|a: int, b: int| 0 <= a < r.len() && 0 <= b < r.len() && a != b implies r[a] != r[b] by {
                if a == prev.len() {
                    assert(r[b] == prev[b]);
                } else if b == prev.len() {
                    assert(r[a] == prev[a]);
                } else {
                    assert(r[a] == prev[a] && r[b] == prev[b]);
                }
            }
            assert forall|c: Seq<char>| prev.contains(c) implies r.contains(c) by {
                let i = choose|i: int| 0 <= i < prev.len() && prev[i] == c;
                assert(r[i] == c);
            }
            assert(r[prev.len() as int] == k);
        }
        assert forall|i: int| 0 <= i < fields.len() implies r.contains(#[trigger] fields[i].0) by {
            if i < init.len() {
                assert(init[i] == fields[i]);
                assert(prev.contains(init[i].0));
            }
        }
        assert forall|c: Seq<char>| r.contains(c) implies cols.contains(c) || exists|i: int|
            0 <= i < fields.len() && #[trigger] fields[i].0 == c by {
            if c == k {
                assert(fields[fields.len() - 1].0 == c);
            } else {
                assert(prev.contains(c)) by {
                    let i = choose|i: int| 0 <= i < r.len() && r[i] == c;
                    if i < prev.len() {
                        assert(r[i] == prev[i]);
                    }
                }
                if !cols.contains(c) {
                    let i = choose|i: int| 0 <= i < init.len() && #[trigger] init[i].0 == c;
                    assert(fields[i] == init[i]);
                }
            }
        }
    }
}

/// The columns: no column twice, and every member name of every item is a column.
pub(crate) proof fn lemma_table_columns(items: Seq<SpecJson>, j: int)
    requires
        0 <= j <= items.len(),
    ensures
        table_columns(items, j).no_duplicates(),
        forall|i: int, k: int|
            0 <= i < j && 0 <= k < members_of(items[i]).len() ==> table_columns(items, j).contains(
                #[trigger] members_of(items[i])[k].0,
            ),
    decreases j,
{
    if j > 0 {
        lemma_table_columns(items, j - 1);
        let prev = table_columns(items, j - 1);
        let f = value_fields(members_of(items[j - 1]));
        lemma_merge_props(prev, f);
        assert forall|i: int, k: int|
            0 <= i < j && 0 <= k < members_of(items[i]).len() implies table_columns(items, j).contains(
            #[trigger] members_of(items[i])[k].0,
        ) by {
            if i < j - 1 {
                assert(prev.contains(members_of(items[i])[k].0));
            } else {
                assert(f[k].0 == members_of(items[i])[k].0);
            }
        }
    } else {
        assert(Seq::<Seq<char>>::empty().no_duplicates());
    }
}


// ---------------------------------------------------------------------------
// The written text
// ---------------------------------------------------------------------------

/// The table section of the whole array.
pub open spec fn full_table(items: Seq<SpecJson>) -> SPlanSection {
    table_section(items, items.len() as int)
}

/// `:root[]` and `:data` lines.
pub open spec fn table_head() -> Seq<char> {
    seq![':', 'r', 'o', 'o', 't', '[', ']', '\n', ':', 'd', 'a', 't', 'a', '\n']
}

/// The header line of the table.
pub open spec fn table_header_line(items: Seq<SpecJson>) -> Seq<char> {
    join_comma(header_parts(full_table(items)))
}

/// The line of row `j` of the table.
pub open spec fn table_row_line(items: Seq<SpecJson>, j: int) -> Seq<char> {
    join_comma(row_parts(full_table(items), full_table(items).rows[j]))
}

proof fn lemma_table_text(items: Seq<SpecJson>)
    requires
        objects_ok(items),
        !crate::encoder::pk_first(full_table(items)),
    ensures
        render(plan_root(SpecJson::Array(items))) == table_head() + table_header_line(items) + seq!['\n']
            + rows_text(full_table(items), items.len() as int),
{
    lemma_table_plan(items);
    let p = plan_root(SpecJson::Array(items));
    let sec = full_table(items);
    assert(crate::encoder::sections_text(p.sections, 0) =~= Seq::<char>::empty());
    assert(crate::encoder::sections_text(p.sections, 1) =~= crate::encoder::render_section(sec));
    assert(sec.rows.len() == items.len());
    assert(render(p) =~= table_head() + table_header_line(items) + seq!['\n'] + rows_text(
        sec,
        items.len() as int,
    ));
}

/// The lines of rows `i..k`.
pub(crate) open spec fn rows_tail(sec: SPlanSection, i: int, k: int) -> Seq<char>
    decreases k - i,
{
    if i < 0 || i >= k {
        Seq::empty()
    } else {
        join_comma(row_parts(sec, sec.rows[i])) + seq!['\n'] + rows_tail(sec, i + 1, k)
    }
}

pub(crate) proof fn lemma_rows_split(sec: SPlanSection, i: int, k: int)
    requires
        0 <= i <= k,
    ensures
        rows_text(sec, k) == rows_text(sec, i) + rows_tail(sec, i, k),
    decreases k - i,
{
    if i < k {
        lemma_rows_split(sec, i + 1, k);
        assert(rows_text(sec, i + 1) == rows_text(sec, i) + join_comma(row_parts(sec, sec.rows[i])) + seq!['\n']);
        assert(rows_text(sec, k) =~= rows_text(sec, i) + rows_tail(sec, i, k));
    } else {
        assert(rows_tail(sec, i, k) =~= Seq::<char>::empty());
        assert(rows_text(sec, k) =~= rows_text(sec, i) + Seq::<char>::empty());
    }
}

// ---------------------------------------------------------------------------
// The cells the lexer makes of those lines
// ---------------------------------------------------------------------------

/// The cell of column `c` in a row with these fields: the written cell, or an empty one.
pub open spec fn col_cell(fields: Seq<(Seq<char>, SPlanCell)>, c: Seq<char>) -> SCell {
    match find_field(fields, c) {
        Some(cell) => crate::nested::plan_cell(cell),
        None => SCell::Unquoted(Seq::empty()),
    }
}

/// The cells of the header line.
pub open spec fn head_cells(items: Seq<SpecJson>) -> Seq<SCell> {
    full_table(items).data_columns.map_values(|k: Seq<char>| crate::readback::written_header_cell(k))
}

/// The cells of row `j`.
pub open spec fn row_cells(items: Seq<SpecJson>, j: int) -> Seq<SCell> {
    full_table(items).data_columns.map_values(|c: Seq<char>| col_cell(full_table(items).rows[j].fields, c))
}

pub(crate) proof fn lemma_find_some(fields: Seq<(Seq<char>, SPlanCell)>, c: Seq<char>)
    ensures
        find_field(fields, c) matches Some(cell) ==> exists|i: int|
            0 <= i < fields.len() && #[trigger] fields[i] == (c, cell),
        find_field(fields, c) is None ==> forall|i: int| 0 <= i < fields.len() ==> (#[trigger] fields[i]).0 != c,
    decreases fields.len(),
{
    if fields.len() > 0 && fields[0].0 != c {
        let rest = fields.drop_first();
        lemma_find_some(rest, c);
        if find_field(fields, c) is Some {
            let i = choose|i: int| 0 <= i < rest.len() && #[trigger] rest[i] == (c, find_field(fields, c)->Some_0);
            assert(fields[i + 1] == rest[i]);
        } else {
            assert forall|i: int| 0 <= i < fields.len() implies (#[trigger] fields[i]).0 != c by {
                if i > 0 {
                    assert(fields[i] == rest[i - 1]);
                }
            }
        }
    } else if fields.len() > 0 {
        assert(fields[0] == (c, find_field(fields, c)->Some_0));
    }
}

/// The text of column `c` in row `j` reads back as its cell, and holds no null character.
proof fn lemma_col_reads(items: Seq<SpecJson>, j: int, c: Seq<char>)
    requires
        objects_ok(items),
        0 <= j < items.len(),
    ensures
        field_reads(column_text(full_table(items).rows[j].fields, c), col_cell(full_table(items).rows[j].fields, c)),
        no_nul(column_text(full_table(items).rows[j].fields, c)),
        column_text(full_table(items).rows[j].fields, c).len() > 0 ==> {
            let t = column_text(full_table(items).rows[j].fields, c);
            !crate::lexer::is_ws(t[0]) && t[0] != '\n' && t[0] != '\r'
        },
{
    let fields = full_table(items).rows[j].fields;
    let m = members_of(items[j]);
    assert(items[j] is Object && flat_ok(m));
    assert(fields == value_fields(m));
    lemma_find_some(fields, c);
    match find_field(fields, c) {
        Some(cell) => {
            let i = choose|i: int| 0 <= i < fields.len() && #[trigger] fields[i] == (c, cell);
            assert(fields[i] == (m[i].0, SPlanCell::Value(m[i].1)));
            let x = m[i].1;
            assert(crate::readback::writable_scalar(x));
            crate::readback::lemma_scalar_field_reads(x);
            crate::readback::lemma_scalar_text(x);
        },
        None => {
            crate::readback::lemma_empty_field_reads();
        },
    }
}

/// The row lines read back as their cells.
pub(crate) proof fn lemma_row_reads(items: Seq<SpecJson>, j: int)
    requires
        objects_ok(items),
        0 <= j < items.len(),
    ensures
        ({
            let rt = row_parts(full_table(items), full_table(items).rows[j]);
            &&& rt.len() == row_cells(items, j).len()
            &&& rt.len() == full_table(items).data_columns.len()
            &&& forall|i: int| 0 <= i < rt.len() ==> field_reads(#[trigger] rt[i], row_cells(items, j)[i])
            &&& no_nul(join_comma(rt))
            &&& crate::roundtrip::opens_data_line(join_comma(rt)) ==> lead_ok(join_comma(rt))
        }),
{
    let sec = full_table(items);
    let row = sec.rows[j];
    let rt = row_parts(sec, row);
    let cols = sec.data_columns;
    assert(rt =~= cols.map_values(|c: Seq<char>| column_text(row.fields, c)));
    assert forall|i: int| 0 <= i < rt.len() implies field_reads(#[trigger] rt[i], row_cells(items, j)[i]) && no_nul(
        rt[i],
    ) by {
        lemma_col_reads(items, j, cols[i]);
    }
    crate::readback::lemma_join_text(rt);
    if rt.len() > 0 {
        lemma_col_reads(items, j, cols[0]);
        if rt.len() == 1 {
            assert(join_comma(rt) == rt[0]);
        }
    } else {
        assert(join_comma(rt) =~= Seq::<char>::empty());
    }
}

/// The header line reads back as its cells.
pub(crate) proof fn lemma_head_reads(items: Seq<SpecJson>)
    requires
        objects_ok(items),
    ensures
        ({
            let ht = header_parts(full_table(items));
            &&& ht.len() == head_cells(items).len()
            &&& forall|i: int| 0 <= i < ht.len() ==> field_reads(#[trigger] ht[i], head_cells(items)[i])
            &&& no_nul(join_comma(ht))
            &&& crate::roundtrip::opens_data_line(join_comma(ht)) ==> lead_ok(join_comma(ht))
        }),
        forall|i: int|
            0 <= i < full_table(items).data_columns.len() ==> crate::readback::writable_key(
                #[trigger] full_table(items).data_columns[i],
            ),
{
    let sec = full_table(items);
    let ht = header_parts(sec);
    let cols = sec.data_columns;
    lemma_table_columns(items, items.len() as int);
    assert(ht =~= cols.map_values(|k: Seq<char>| crate::encoder::spec_csv_field_header(k)));
    assert forall|i: int| 0 <= i < cols.len() implies crate::readback::writable_key(#[trigger] cols[i]) by {
        lemma_column_origin(items, items.len() as int, cols[i]);
        let (jj, kk) = choose|jj: int, k: int|
            0 <= jj < items.len() && 0 <= k < members_of(items[jj]).len() && #[trigger] members_of(items[jj])[k].0
                == cols[i];
        assert(items[jj] is Object && flat_ok(members_of(items[jj])));
        assert(crate::readback::writable_key(members_of(items[jj])[kk].0));
    }
    assert forall|i: int| 0 <= i < ht.len() implies field_reads(#[trigger] ht[i], head_cells(items)[i]) && no_nul(
        ht[i],
    ) by {
        crate::readback::lemma_key_field_reads(cols[i]);
        crate::readback::lemma_key_text(cols[i]);
    }
    crate::readback::lemma_join_text(ht);
    if ht.len() > 0 {
        crate::readback::lemma_key_text(cols[0]);
        if ht.len() == 1 {
            assert(join_comma(ht) == ht[0]);
        }
    } else {
        assert(join_comma(ht) =~= Seq::<char>::empty());
    }
}

/// Every column is the name of a member of some item.
proof fn lemma_column_origin(items: Seq<SpecJson>, j: int, c: Seq<char>)
    requires
        0 <= j <= items.len(),
        table_columns(items, j).contains(c),
    ensures
        exists|jj: int, k: int|
            0 <= jj < j && 0 <= k < members_of(items[jj]).len() && #[trigger] members_of(items[jj])[k].0 == c,
    decreases j,
{
    if j > 0 {
        let prev = table_columns(items, j - 1);
        let f = value_fields(members_of(items[j - 1]));
        lemma_table_columns(items, j - 1);
        lemma_merge_props(prev, f);
        if prev.contains(c) {
            lemma_column_origin(items, j - 1, c);
            let (jj, k) = choose|jj: int, k: int|
                0 <= jj < j - 1 && 0 <= k < members_of(items[jj]).len() && #[trigger] members_of(items[jj])[k].0 == c;
            assert(members_of(items[jj])[k].0 == c);
        } else {
            let i = choose|i: int| 0 <= i < f.len() && #[trigger] f[i].0 == c;
            assert(members_of(items[j - 1])[i].0 == c);
        }
    }
}


// ---------------------------------------------------------------------------
// The written text, through the lexer
// ---------------------------------------------------------------------------

/// The first three tokens: the array root, the section, and the header record.
proof fn lemma_table_lex_head(items: Seq<SpecJson>, s: Seq<char>, post: Seq<char>) -> (r: nat)
    requires
        objects_ok(items),
        s == table_head() + table_header_line(items) + seq!['\n'] + post,
        no_nul(s),
        crate::roundtrip::opens_data_line(table_header_line(items)),
    ensures
        lex_from(s, 0, 1, Seq::empty()) == lex_from(
            s,
            (15 + table_header_line(items).len()) as int,
            r,
            seq![
                (1nat, SToken::Root { array: true }),
                (2nat, SToken::Header { name: data_word(), array: false }),
                (3nat, SToken::Row { cells: head_cells(items) }),
            ],
        ),
{
    let nl = seq!['\n'];
    let h = table_header_line(items);
    let rw = seq![':', 'r', 'o', 'o', 't', '[', ']'];
    let rest1 = seq![':'] + data_word() + nl + h + nl + post;
    assert(s =~= Seq::<char>::empty() + rw + nl + rest1);
    crate::roundtrip::lemma_struct_line(Seq::empty(), rw, rest1, 1, Seq::empty());
    assert(rw.drop_first() =~= crate::lexer::root_array_word());
    assert(rw.drop_first() != crate::lexer::root_word()) by {
        assert(rw.drop_first().len() != crate::lexer::root_word().len());
    }
    let acc1 = Seq::<(nat, SToken)>::empty().push((1nat, SToken::Root { array: true }));
    let pre2 = rw + nl;
    assert(s =~= pre2 + (seq![':'] + data_word()) + nl + (h + nl + post));
    let dw = data_word();
    assert(crate::lexer::valid_section_name(dw)) by {
        assert(crate::lexer::is_name_char(dw[1]));
        assert(crate::lexer::is_name_char(dw[2]));
        assert(crate::lexer::is_name_char(dw[3]));
    }
    assert(dw != crate::nested::root_name()) by {
        assert(dw[0] != crate::nested::root_name()[0]);
    }
    crate::nested::lemma_header_line(pre2, dw, h + nl + post, 2, acc1);
    let acc2 = acc1.push((2nat, SToken::Header { name: dw, array: false }));
    let pre3 = table_head();
    assert(s =~= pre3 + h + nl + post);
    lemma_head_reads(items);
    let ht = header_parts(full_table(items));
    let hc = head_cells(items);
    assert(ht.len() > 0) by {
        if ht.len() == 0 {
            assert(join_comma(ht) =~= Seq::<char>::empty());
        }
    }
    crate::readback::lemma_record(ht, hc, pre3, post, 3, Seq::empty());
    assert(Seq::<SCell>::empty() + hc =~= hc);
    assert(s[14] == h[0]);
    crate::roundtrip::lemma_data_line(s, 14, 3, acc2);
    let r3 = parse_record(s, 14, 3, Seq::empty())->Ok_0;
    assert(acc2.push((3nat, SToken::Row { cells: hc })) =~= seq![
        (1nat, SToken::Root { array: true }),
        (2nat, SToken::Header { name: data_word(), array: false }),
        (3nat, SToken::Row { cells: head_cells(items) }),
    ]);
    r3.2
}

/// Where the lines of the rows start.
pub open spec fn body_start(items: Seq<SpecJson>) -> int {
    (15 + table_header_line(items).len()) as int
}

/// Row lines read back as rows: what the law asks of every row line.
pub open spec fn rows_open(items: Seq<SpecJson>) -> bool {
    forall|j: int| 0 <= j < items.len() ==> crate::roundtrip::opens_data_line(#[trigger] table_row_line(items, j))
}

proof fn lemma_row_at(items: Seq<SpecJson>, s: Seq<char>, i: int)
    requires
        s == table_head() + table_header_line(items) + seq!['\n'] + rows_text(full_table(items), items.len() as int),
        0 <= i < items.len(),
        objects_ok(items),
    ensures
        s == (table_head() + table_header_line(items) + seq!['\n'] + rows_text(full_table(items), i))
            + table_row_line(items, i) + seq!['\n'] + rows_tail(full_table(items), i + 1, items.len() as int),
        rows_text(full_table(items), i + 1).len() == rows_text(full_table(items), i).len() + table_row_line(
            items,
            i,
        ).len() + 1,
{
    let sec = full_table(items);
    let k = items.len() as int;
    lemma_rows_split(sec, i, k);
    assert(sec.rows.len() == items.len());
    assert(rows_tail(sec, i, k) == table_row_line(items, i) + seq!['\n'] + rows_tail(sec, i + 1, k));
    assert(rows_text(sec, i + 1) == rows_text(sec, i) + table_row_line(items, i) + seq!['\n']);
    assert(s =~= (table_head() + table_header_line(items) + seq!['\n'] + rows_text(sec, i)) + table_row_line(items, i)
        + seq!['\n'] + rows_tail(sec, i + 1, k));
}

/// The row lines, through the lexer, one row token each.
#[verifier::spinoff_prover]
#[verifier::rlimit(50)]
proof fn lemma_lex_rows(items: Seq<SpecJson>, s: Seq<char>, i: int, line: nat, acc: Seq<(nat, SToken)>) -> (toks: Seq<(nat, SToken)>)
    requires
        s == table_head() + table_header_line(items) + seq!['\n'] + rows_text(full_table(items), items.len() as int),
        objects_ok(items),
        rows_open(items),
        0 <= i <= items.len(),
        no_nul(s),
        acc.len() == 3 + i,
    ensures
        lex_from(s, body_start(items) + rows_text(full_table(items), i).len(), line, acc) == Ok::<
            Seq<(nat, SToken)>,
            crate::error::SpecError,
        >(toks),
        toks.len() == 3 + items.len(),
        toks.subrange(0, acc.len() as int) == acc,
        forall|j: int| i <= j < items.len() ==> toks[3 + j].1 == (SToken::Row { cells: #[trigger] row_cells(items, j) }),
    decreases items.len() - i,
{
    let k = items.len() as int;
    if i == k {
        assert(acc.subrange(0, acc.len() as int) =~= acc);
        acc
    } else {
        lemma_row_at(items, s, i);
        let pre = table_head() + table_header_line(items) + seq!['\n'] + rows_text(full_table(items), i);
        let post = rows_tail(full_table(items), i + 1, k);
        lemma_row_reads(items, i);
        assert(crate::roundtrip::opens_data_line(table_row_line(items, i)));
        let rt = row_parts(full_table(items), full_table(items).rows[i]);
        let rc = row_cells(items, i);
        assert(rt.len() > 0) by {
            if rt.len() == 0 {
                assert(join_comma(rt) =~= Seq::<char>::empty());
            }
        }
        crate::readback::lemma_record(rt, rc, pre, post, line, Seq::empty());
        assert(Seq::<SCell>::empty() + rc =~= rc);
        assert(s[pre.len() as int] == table_row_line(items, i)[0]);
        crate::roundtrip::lemma_data_line(s, pre.len() as int, line, acc);
        let r = parse_record(s, pre.len() as int, line, Seq::empty())->Ok_0;
        let acc2 = acc.push((line, SToken::Row { cells: rc }));
        let toks = lemma_lex_rows(items, s, i + 1, r.2, acc2);
        assert(acc2.subrange(0, acc.len() as int) =~= acc);
        crate::arrays::lemma_prefix_toks(toks, acc, acc2);
        toks
    }
}


// ---------------------------------------------------------------------------
// Collection of the tokens
// ---------------------------------------------------------------------------

/// The tokens of the written text, as the lexer makes them.
pub open spec fn table_toks(toks: Seq<(nat, SToken)>, items: Seq<SpecJson>) -> bool {
    &&& toks.len() == 3 + items.len()
    &&& toks[0].1 == SToken::Root { array: true }
    &&& toks[1].1 == SToken::Header { name: data_word(), array: false }
    &&& toks[2].1 == SToken::Row { cells: head_cells(items) }
    &&& forall|j: int| 0 <= j < items.len() ==> toks[3 + j].1 == (SToken::Row { cells: #[trigger] row_cells(items, j) })
}

/// The collected table after `i` rows.
pub open spec fn table_doc_section(toks: Seq<(nat, SToken)>, items: Seq<SpecJson>, i: int) -> SSection {
    SSection {
        name: data_word(),
        array: false,
        header_line: toks[1].0,
        header: crate::parser::header_of(head_cells(items)),
        rows: Seq::new(i as nat, |j: int| SRow { line: toks[3 + j].0, cells: row_cells(items, j) }),
    }
}

spec fn table_cstate(toks: Seq<(nat, SToken)>, items: Seq<SpecJson>, i: int) -> crate::parser::CState {
    crate::parser::CState {
        root_array: Some(true),
        sections: seq![table_doc_section(toks, items, i)],
        state: crate::parser::PState::InSection(0),
        prev_array_idx: None,
        prev_array_blank_line: None,
        missing_root_reported: false,
        errors: Seq::empty(),
    }
}

proof fn lemma_table_collect(toks: Seq<(nat, SToken)>, items: Seq<SpecJson>, i: int)
    requires
        table_toks(toks, items),
        full_table(items).data_columns.len() > 0,
        0 <= i <= items.len(),
    ensures
        crate::parser::collect_upto(toks, 3 + i) == table_cstate(toks, items, i),
    decreases i,
{
    if i == 0 {
        let st0 = crate::parser::cstate_init();
        assert(crate::parser::collect_upto(toks, 0) == st0);
        let st1 = crate::parser::collect_upto(toks, 1);
        assert(st1 == crate::parser::collect_step(st0, toks[0].0, toks[0].1));
        let st2 = crate::parser::collect_upto(toks, 2);
        assert(st2 == crate::parser::collect_step(st1, toks[1].0, toks[1].1));
        assert(!crate::parser::has_section_named(st1.sections, data_word()));
        let st3 = crate::parser::collect_upto(toks, 3);
        assert(st3 == crate::parser::collect_step(st2, toks[2].0, toks[2].1));
        assert(st2.sections[0].header.len() == 0);
        assert(st3.sections =~= table_cstate(toks, items, 0).sections) by {
            assert(table_doc_section(toks, items, 0).rows =~= Seq::<SRow>::empty());
        }
    } else {
        lemma_table_collect(toks, items, i - 1);
        let st = table_cstate(toks, items, i - 1);
        assert(head_cells(items).len() > 0);
        assert(crate::parser::header_of(head_cells(items)).len() > 0);
        assert(toks[3 + (i - 1)].1 == SToken::Row { cells: row_cells(items, i - 1) });
        let st2 = crate::parser::collect_upto(toks, 3 + i);
        assert(st2 == crate::parser::collect_step(st, toks[2 + i].0, toks[2 + i].1));
        assert(table_doc_section(toks, items, i - 1).rows.push(
            SRow { line: toks[2 + i].0, cells: row_cells(items, i - 1) },
        ) =~= table_doc_section(toks, items, i).rows);
        assert(st2.sections =~= table_cstate(toks, items, i).sections);
    }
}

/// The collected document.
pub open spec fn table_doc(toks: Seq<(nat, SToken)>, items: Seq<SpecJson>) -> SDoc {
    SDoc { root_array: true, sections: seq![table_doc_section(toks, items, items.len() as int)] }
}

/// The header of the collected table is the columns.
pub(crate) proof fn lemma_table_header(items: Seq<SpecJson>)
    ensures
        crate::parser::header_of(head_cells(items)) == full_table(items).data_columns,
{
    let cols = full_table(items).data_columns;
    assert forall|i: int| 0 <= i < cols.len() implies crate::lexer::scell_text(
        crate::readback::written_header_cell(#[trigger] cols[i]),
    ) == cols[i] by {}
    assert(crate::parser::header_of(head_cells(items)) =~= cols);
}

/// Structural collection gives the table, with no error; and no pk index.
proof fn lemma_table_structure(toks: Seq<(nat, SToken)>, items: Seq<SpecJson>, s: Seq<char>)
    requires
        crate::lexer::spec_lex(s) == Ok::<Seq<(nat, SToken)>, crate::error::SpecError>(toks),
        table_toks(toks, items),
        full_table(items).data_columns.len() > 0,
        full_table(items).data_columns[0] != crate::parser::pk_word(),
    ensures
        crate::parser::spec_collect_structural(s) == (Some(table_doc(toks, items)), Seq::<crate::error::SpecError>::empty()),
        crate::parser::spec_pk_collect(table_doc(toks, items).sections) == (
            Seq::<(Seq<char>, nat, nat)>::empty(),
            Seq::<crate::error::SpecError>::empty(),
        ),
{
    let n = items.len() as int;
    lemma_table_collect(toks, items, n);
    let d = table_doc(toks, items);
    assert(crate::parser::name_errors(d.sections, 0) =~= Seq::<crate::error::SpecError>::empty());
    assert(crate::lexer::valid_section_name(data_word())) by {
        let dw = data_word();
        assert(crate::lexer::is_name_char(dw[1]));
        assert(crate::lexer::is_name_char(dw[2]));
        assert(crate::lexer::is_name_char(dw[3]));
    }
    assert(crate::parser::name_errors(d.sections, 1) =~= Seq::<crate::error::SpecError>::empty());
    lemma_table_header(items);
    assert(!crate::parser::is_pk_table(d.sections[0]));
    assert(crate::parser::pk_sections(d.sections, 0) == (
        Seq::<(Seq<char>, nat, nat)>::empty(),
        Seq::<crate::error::SpecError>::empty(),
    ));
    assert(crate::parser::spec_pk_collect(d.sections) == crate::parser::pk_sections(d.sections, 1));
}


// ---------------------------------------------------------------------------
// The objects read back
// ---------------------------------------------------------------------------

/// The members of `m` in the order of the first `c` columns: for each column that names a
/// member, that member.
pub open spec fn in_column_order(cols: Seq<Seq<char>>, m: Seq<(Seq<char>, SpecJson)>, c: int) -> Seq<
    (Seq<char>, SpecJson),
>
    decreases c,
{
    if c <= 0 {
        Seq::empty()
    } else {
        let prev = in_column_order(cols, m, c - 1);
        match crate::json::obj_find(m, cols[c - 1]) {
            Some(i) => prev.push(m[i as int]),
            None => prev,
        }
    }
}

/// `a` holds the members of `b`, each name once, in some order.
pub open spec fn same_members(a: Seq<(Seq<char>, SpecJson)>, b: Seq<(Seq<char>, SpecJson)>) -> bool {
    &&& distinct_keys(a)
    &&& forall|i: int| 0 <= i < a.len() ==> b.contains(#[trigger] a[i])
    &&& forall|i: int| 0 <= i < b.len() ==> a.contains(#[trigger] b[i])
}

proof fn lemma_obj_find_some(obj: Seq<(Seq<char>, SpecJson)>, k: Seq<char>)
    ensures
        crate::json::obj_find(obj, k) matches Some(i) ==> i < obj.len() && obj[i as int].0 == k,
        crate::json::obj_find(obj, k) is None ==> forall|i: int| 0 <= i < obj.len() ==> (#[trigger] obj[i]).0 != k,
    decreases obj.len(),
{
    if obj.len() > 0 {
        let init = obj.drop_last();
        lemma_obj_find_some(init, k);
        if crate::json::obj_find(obj, k) is None {
            assert forall|i: int| 0 <= i < obj.len() implies (#[trigger] obj[i]).0 != k by {
                if i < init.len() {
                    assert(obj[i] == init[i]);
                }
            }
        }
    }
}

/// For members with distinct names, the field of a name is the member of that name.
proof fn lemma_field_member(m: Seq<(Seq<char>, SpecJson)>, c: Seq<char>)
    requires
        distinct_keys(m),
    ensures
        find_field(value_fields(m), c) == match crate::json::obj_find(m, c) {
            Some(i) => Some(SPlanCell::Value(m[i as int].1)),
            None => None::<SPlanCell>,
        },
{
    let f = value_fields(m);
    lemma_obj_find_some(m, c);
    lemma_find_some(f, c);
    match crate::json::obj_find(m, c) {
        Some(i) => {
            crate::json::lemma_obj_find_first(m, c, i as int);
            assert forall|a: int, b: int| 0 <= a < b < f.len() implies f[a].0 != f[b].0 by {
                assert(f[a].0 == m[a].0 && f[b].0 == m[b].0);
            }
            crate::roundtrip::lemma_find_distinct(f, i as int);
        },
        None => {
            if find_field(f, c) is Some {
                let i = choose|i: int| 0 <= i < f.len() && #[trigger] f[i] == (c, find_field(f, c)->Some_0);
                assert(m[i].0 == c);
            }
        },
    }
}

/// The names of the members in column order are among the first `c` columns.
proof fn lemma_order_keys(cols: Seq<Seq<char>>, m: Seq<(Seq<char>, SpecJson)>, c: int)
    requires
        0 <= c <= cols.len(),
    ensures
        forall|k: int|
            0 <= k < in_column_order(cols, m, c).len() ==> exists|cc: int|
                0 <= cc < c && #[trigger] cols[cc] == (#[trigger] in_column_order(cols, m, c)[k]).0,
        forall|k: int| 0 <= k < in_column_order(cols, m, c).len() ==> m.contains(#[trigger] in_column_order(cols, m, c)[k]),
    decreases c,
{
    if c > 0 {
        lemma_order_keys(cols, m, c - 1);
        let prev = in_column_order(cols, m, c - 1);
        let cur = in_column_order(cols, m, c);
        lemma_obj_find_some(m, cols[c - 1]);
        assert forall|k: int| 0 <= k < cur.len() implies (exists|cc: int| 0 <= cc < c && #[trigger] cols[cc] == (
        #[trigger] cur[k]).0) && m.contains(cur[k]) by {
            if k < prev.len() {
                assert(cur[k] == prev[k]);
                let cc = choose|cc: int| 0 <= cc < c - 1 && #[trigger] cols[cc] == (#[trigger] prev[k]).0;
                assert(cols[cc] == cur[k].0);
            } else {
                let i = crate::json::obj_find(m, cols[c - 1])->Some_0;
                assert(cur[k] == m[i as int]);
                assert(cols[c - 1] == cur[k].0);
            }
        }
    }
}

/// The rest of the columns of row `ri` of table `si` build the members in column order.
#[verifier::rlimit(50)]
pub(crate) proof fn lemma_table_cols(
    d: SDoc,
    pk: crate::resolve::Pk,
    path: Seq<crate::resolve::Key>,
    vis: Seq<bool>,
    si: nat,
    items: Seq<SpecJson>,
    ri: int,
    col: int,
)
    requires
        objects_ok(items),
        0 <= ri < items.len(),
        si < d.sections.len(),
        d.sections[si as int].header == full_table(items).data_columns,
        d.sections[si as int].rows.len() == items.len(),
        d.sections[si as int].rows[ri].cells == row_cells(items, ri),
        full_table(items).data_columns.len() > 0,
        full_table(items).data_columns[0] != crate::parser::pk_word(),
        0 <= col <= full_table(items).data_columns.len(),
    ensures
        crate::resolve::build_cols(
            d,
            pk,
            path,
            vis,
            si,
            ri as nat,
            col,
            in_column_order(full_table(items).data_columns, members_of(items[ri]), col),
        ) == (
            Ok::<SpecJson, crate::error::SpecError>(
                SpecJson::Object(
                    in_column_order(
                        full_table(items).data_columns,
                        members_of(items[ri]),
                        full_table(items).data_columns.len() as int,
                    ),
                ),
            ),
            vis,
        ),
    decreases full_table(items).data_columns.len() - col,
{
    let cols = full_table(items).data_columns;
    let m = members_of(items[ri]);
    let obj = in_column_order(cols, m, col);
    if col < cols.len() {
        assert(items[ri] is Object && flat_ok(m));
        let row = d.sections[si as int].rows[ri];
        assert(row.cells[col] == col_cell(full_table(items).rows[ri].fields, cols[col]));
        assert(full_table(items).rows[ri].fields == value_fields(m));
        lemma_field_member(m, cols[col]);
        lemma_order_keys(cols, m, col);
        lemma_table_columns(items, items.len() as int);
        lemma_obj_find_some(m, cols[col]);
        assert(row.cells.len() == cols.len());
        assert(col == 0 ==> d.sections[si as int].header[0] != crate::parser::pk_word());
        match crate::json::obj_find(m, cols[col]) {
            Some(i) => {
                let x = m[i as int].1;
                assert(crate::readback::writable_scalar(x));
                crate::readback::lemma_written_cell_value(x, d, pk, path, vis, row.line);
                assert(row.cells[col] == written_cell(x));
                assert forall|k: int| 0 <= k < obj.len() implies (#[trigger] obj[k]).0 != cols[col] by {
                    let cc = choose|cc: int| 0 <= cc < col && #[trigger] cols[cc] == (#[trigger] obj[k]).0;
                }
                crate::json::lemma_obj_find_first(obj, cols[col], obj.len() as int);
                assert(crate::json::obj_insert(obj, cols[col], x) == obj.push(m[i as int]));
                assert(in_column_order(cols, m, col + 1) == obj.push(m[i as int]));
            },
            None => {
                assert(row.cells[col] == SCell::Unquoted(Seq::empty()));
                assert(crate::resolve::cell_value(d, pk, path, vis, row.cells[col], row.line) == (
                    Ok::<Option<SpecJson>, crate::error::SpecError>(None),
                    vis,
                ));
                assert(in_column_order(cols, m, col + 1) == obj);
            },
        }
        lemma_table_cols(d, pk, path, vis, si, items, ri, col + 1);
    }
}

/// The objects that the table reads back as: each item's members in column order.
pub open spec fn table_objects(items: Seq<SpecJson>) -> Seq<SpecJson> {
    Seq::new(
        items.len(),
        |j: int|
            SpecJson::Object(
                in_column_order(
                    full_table(items).data_columns,
                    members_of(items[j]),
                    full_table(items).data_columns.len() as int,
                ),
            ),
    )
}

/// Rows `ri..` of table `si`, read as objects, give the objects in column order, when no
/// row of the table is in flight and the table is already reached.
#[verifier::rlimit(50)]
pub(crate) proof fn lemma_table_rows(
    d: SDoc,
    pk: crate::resolve::Pk,
    path: Seq<crate::resolve::Key>,
    vis: Seq<bool>,
    si: nat,
    items: Seq<SpecJson>,
    ri: int,
)
    requires
        objects_ok(items),
        si < d.sections.len(),
        si < vis.len() && vis[si as int],
        crate::resolve::path_ok(d.sections, path),
        forall|r: nat| !path.contains(crate::resolve::Key::Row(si, r)),
        d.sections[si as int].header == full_table(items).data_columns,
        d.sections[si as int].rows.len() == items.len(),
        forall|j: int| 0 <= j < items.len() ==> d.sections[si as int].rows[j].cells == #[trigger] row_cells(items, j),
        full_table(items).data_columns.len() > 0,
        full_table(items).data_columns[0] != crate::parser::pk_word(),
        0 <= ri <= items.len(),
    ensures
        crate::resolve::build_table_rows(d, pk, path, vis, si, ri, table_objects(items).subrange(0, ri)) == (
            Ok::<SpecJson, crate::error::SpecError>(SpecJson::Array(table_objects(items))),
            vis,
        ),
    decreases items.len() - ri,
{
    let outs = table_objects(items);
    if ri < items.len() {
        let key = crate::resolve::Key::Row(si, ri as nat);
        assert(!path.contains(key));
        assert(crate::resolve::key_valid(d.sections, key));
        crate::resolve::lemma_path_push(d.sections, path, key);
        assert(vis.update(si as int, true) =~= vis);
        assert(in_column_order(full_table(items).data_columns, members_of(items[ri]), 0) =~= Seq::<
            (Seq<char>, SpecJson),
        >::empty());
        assert(d.sections[si as int].rows[ri].cells == row_cells(items, ri));
        lemma_table_cols(d, pk, path.push(key), vis, si, items, ri, 0);
        assert(crate::resolve::res_object_row(d, pk, path, vis, si, ri as nat) == (
            Ok::<SpecJson, crate::error::SpecError>(outs[ri]),
            vis,
        ));
        assert(outs.subrange(0, ri).push(outs[ri]) =~= outs.subrange(0, ri + 1));
        lemma_table_rows(d, pk, path, vis, si, items, ri + 1);
    } else {
        assert(outs.subrange(0, ri) =~= outs);
    }
}

/// A longer column prefix extends the members in column order.
proof fn lemma_order_prefix(cols: Seq<Seq<char>>, m: Seq<(Seq<char>, SpecJson)>, a: int, b: int)
    requires
        0 <= a <= b,
    ensures
        in_column_order(cols, m, a).len() <= in_column_order(cols, m, b).len(),
        forall|k: int|
            0 <= k < in_column_order(cols, m, a).len() ==> #[trigger] in_column_order(cols, m, b)[k]
                == in_column_order(cols, m, a)[k],
    decreases b - a,
{
    if a < b {
        lemma_order_prefix(cols, m, a, b - 1);
    }
}

/// In column order, each member named by a column appears, and no name twice.
proof fn lemma_order_members(cols: Seq<Seq<char>>, m: Seq<(Seq<char>, SpecJson)>, c: int)
    requires
        0 <= c <= cols.len(),
        cols.no_duplicates(),
        distinct_keys(m),
    ensures
        distinct_keys(in_column_order(cols, m, c)),
        forall|i: int, cc: int|
            0 <= i < m.len() && 0 <= cc < c && #[trigger] cols[cc] == (#[trigger] m[i]).0 ==> in_column_order(
                cols,
                m,
                c,
            ).contains(m[i]),
    decreases c,
{
    if c > 0 {
        lemma_order_members(cols, m, c - 1);
        lemma_order_keys(cols, m, c - 1);
        lemma_obj_find_some(m, cols[c - 1]);
        let prev = in_column_order(cols, m, c - 1);
        let cur = in_column_order(cols, m, c);
        match crate::json::obj_find(m, cols[c - 1]) {
            Some(ii) => {
                assert(cur == prev.push(m[ii as int]));
                assert forall|a: int, b: int| 0 <= a < b < cur.len() implies cur[a].0 != cur[b].0 by {
                    if b == prev.len() {
                        assert(cur[a] == prev[a]);
                        let cc = choose|cc: int| 0 <= cc < c - 1 && #[trigger] cols[cc] == (#[trigger] prev[a]).0;
                        assert(cols[cc] != cols[c - 1]);
                    } else {
                        assert(cur[a] == prev[a] && cur[b] == prev[b]);
                    }
                }
            },
            None => {},
        }
        assert forall|i: int, cc: int|
            0 <= i < m.len() && 0 <= cc < c && #[trigger] cols[cc] == (#[trigger] m[i]).0 implies cur.contains(m[i]) by {
            if cc < c - 1 {
                assert(prev.contains(m[i]));
                let k = choose|k: int| 0 <= k < prev.len() && prev[k] == m[i];
                lemma_order_prefix(cols, m, c - 1, c);
                assert(cur[k] == m[i]);
            } else {
                let ii = crate::json::obj_find(m, cols[c - 1])->Some_0;
                assert(m[ii as int].0 == m[i].0);
                assert(ii == i);
                assert(cur[prev.len() as int] == m[i]);
            }
        }
    }
}

/// Each object read back holds the members of its item.
pub(crate) proof fn lemma_objects_members(items: Seq<SpecJson>, j: int)
    requires
        objects_ok(items),
        0 <= j < items.len(),
    ensures
        same_members(table_objects(items)[j]->Object_0, members_of(items[j])),
{
    let cols = full_table(items).data_columns;
    let m = members_of(items[j]);
    assert(items[j] is Object && flat_ok(m));
    lemma_table_columns(items, items.len() as int);
    lemma_order_members(cols, m, cols.len() as int);
    lemma_order_keys(cols, m, cols.len() as int);
    let r = in_column_order(cols, m, cols.len() as int);
    assert forall|i: int| 0 <= i < m.len() implies r.contains(#[trigger] m[i]) by {
        assert(cols.contains(members_of(items[j])[i].0));
        let cc = choose|cc: int| 0 <= cc < cols.len() && cols[cc] == m[i].0;
        assert(cols[cc] == m[i].0);
    }
}

/// An array of objects of scalars is written as one table: its header line and row lines
/// must read back (neither comment nor section line, and not empty), and its first column
/// must not be called `pk`.
pub open spec fn table_writable(items: Seq<SpecJson>) -> bool {
    &&& objects_ok(items)
    &&& full_table(items).data_columns.len() > 0
    &&& full_table(items).data_columns[0] != crate::parser::pk_word()
    &&& crate::roundtrip::opens_data_line(table_header_line(items))
    &&& rows_open(items)
}

/// The written text holds no null character.
proof fn lemma_table_text_no_nul(items: Seq<SpecJson>)
    requires
        table_writable(items),
    ensures
        no_nul(table_head() + table_header_line(items) + seq!['\n'] + rows_text(full_table(items), items.len() as int)),
{
    let n = items.len() as int;
    let h = table_header_line(items);
    let body = rows_text(full_table(items), n);
    let s = table_head() + h + seq!['\n'] + body;
    lemma_head_reads(items);
    lemma_rows_no_nul(items, n);
    assert forall|i: int| 0 <= i < s.len() implies #[trigger] s[i] != '\0' by {
        if 14 <= i < 14 + h.len() {
            assert(s[i] == h[i - 14]);
        } else if i >= 15 + h.len() {
            assert(s[i] == body[i - 15 - h.len()]);
        }
    }
}

/// The tokens of the written text.
#[verifier::spinoff_prover]
#[verifier::rlimit(100)]
proof fn lemma_table_tokens(items: Seq<SpecJson>) -> (toks: Seq<(nat, SToken)>)
    requires
        table_writable(items),
    ensures
        crate::lexer::spec_lex(render(plan_root(SpecJson::Array(items)))) == Ok::<
            Seq<(nat, SToken)>,
            crate::error::SpecError,
        >(toks),
        table_toks(toks, items),
{
    let n = items.len() as int;
    let sec = full_table(items);
    lemma_table_text(items);
    let h = table_header_line(items);
    let body = rows_text(sec, n);
    let s = table_head() + h + seq!['\n'] + body;
    assert(render(plan_root(SpecJson::Array(items))) == s);
    lemma_table_text_no_nul(items);
    let r = lemma_table_lex_head(items, s, body);
    let acc3 = seq![
        (1nat, SToken::Root { array: true }),
        (2nat, SToken::Header { name: data_word(), array: false }),
        (3nat, SToken::Row { cells: head_cells(items) }),
    ];
    assert(rows_text(sec, 0) =~= Seq::<char>::empty());
    let toks = lemma_lex_rows(items, s, 0, r, acc3);
    assert(s[0] == ':');
    assert(toks[0] == acc3[0] && toks[1] == acc3[1] && toks[2] == acc3[2]) by {
        assert(toks.subrange(0, 3)[0] == toks[0]);
        assert(toks.subrange(0, 3)[1] == toks[1]);
        assert(toks.subrange(0, 3)[2] == toks[2]);
    }
    toks
}

/// The collected document resolves to the objects in column order.
#[verifier::spinoff_prover]
proof fn lemma_table_resolve(toks: Seq<(nat, SToken)>, items: Seq<SpecJson>)
    requires
        table_writable(items),
        table_toks(toks, items),
        crate::parser::spec_pk_collect(table_doc(toks, items).sections) == (
            Seq::<(Seq<char>, nat, nat)>::empty(),
            Seq::<crate::error::SpecError>::empty(),
        ),
    ensures
        crate::resolve::spec_resolve(table_doc(toks, items)) == Ok::<SpecJson, crate::error::SpecError>(
            SpecJson::Array(table_objects(items)),
        ),
{
    let d = table_doc(toks, items);
    lemma_table_header(items);
    let pe = Seq::<crate::resolve::Key>::empty();
    assert(pe.no_duplicates());
    assert(crate::resolve::path_ok(d.sections, pe));
    let key = crate::resolve::Key::Sec(0);
    crate::resolve::lemma_path_push(d.sections, pe, key);
    let vis0 = Seq::new(1, |i: int| false);
    let vis1 = vis0.update(0, true);
    assert(vis1 =~= seq![true]);
    assert(pe.push(key) =~= seq![key]);
    assert(table_objects(items).subrange(0, 0) =~= Seq::<SpecJson>::empty());
    assert(vis1.update(0, true) =~= vis1);
    assert forall|j: int| 0 <= j < items.len() implies d.sections[0].rows[j].cells == #[trigger] row_cells(items, j) by {}
    let path = seq![key];
    assert(crate::resolve::path_ok(d.sections, path)) by {
        assert(path.no_duplicates());
    }
    assert forall|r: nat| !path.contains(crate::resolve::Key::Row(0, r)) by {
        if path.contains(crate::resolve::Key::Row(0, r)) {
            let i = choose|i: int| 0 <= i < path.len() && path[i] == crate::resolve::Key::Row(0, r);
            assert(path[0] == key);
        }
    }
    lemma_table_rows(d, Seq::empty(), path, vis1, 0, items, 0);
    assert(crate::resolve::res_table_as_array(d, Seq::empty(), pe, vis1, 0) == (
        Ok::<SpecJson, crate::error::SpecError>(SpecJson::Array(table_objects(items))),
        vis1,
    ));
    assert(crate::resolve::resolve_root(d, Seq::empty(), vis0) == (
        Ok::<SpecJson, crate::error::SpecError>(SpecJson::Array(table_objects(items))),
        vis1,
    ));
    assert(crate::resolve::first_unvisited(vis1, 1) is None);
    assert(crate::resolve::first_unvisited(vis1, 0) is None);
    assert(crate::parser::spec_build_pk_index(d.sections) == Ok::<
        Seq<(Seq<char>, nat, nat)>,
        crate::error::SpecError,
    >(Seq::empty()));
}

/// An array of objects of scalars, written by the encoder as one table, is read back by the
/// parser as an array of as many objects, each holding the members of its item, in the
/// order of the table's columns.
pub proof fn lemma_object_array_round_trip(items: Seq<SpecJson>)
    requires
        table_writable(items),
    ensures
        crate::encoder::spec_encode(SpecJson::Array(items)) matches Ok(t) && crate::parser::spec_parse(t)
            == Ok::<SpecJson, crate::error::SpecError>(SpecJson::Array(table_objects(items))),
        crate::json::json_equiv(SpecJson::Array(table_objects(items)), SpecJson::Array(items)),
        table_objects(items).len() == items.len(),
        forall|j: int|
            0 <= j < items.len() ==> (#[trigger] table_objects(items)[j]) is Object && same_members(
                table_objects(items)[j]->Object_0,
                members_of(items[j]),
            ),
{
    let s = render(plan_root(SpecJson::Array(items)));
    let toks = lemma_table_tokens(items);
    lemma_table_structure(toks, items, s);
    lemma_table_resolve(toks, items);
    crate::collection::lemma_parse_of_document(s);
    assert forall|j: int| 0 <= j < items.len() implies (#[trigger] table_objects(items)[j]) is Object && same_members(
        table_objects(items)[j]->Object_0,
        members_of(items[j]),
    ) by {
        lemma_objects_members(items, j);
    }
    lemma_table_equiv(items);
}

/// The objects read back from the table equal the items, up to the order of members.
pub proof fn lemma_table_equiv(items: Seq<SpecJson>)
    requires
        table_writable(items),
    ensures
        crate::json::json_equiv(SpecJson::Array(table_objects(items)), SpecJson::Array(items)),
{
    let t = table_objects(items);
    assert forall|j: int| 0 <= j < t.len() implies crate::json::json_equiv(#[trigger] t[j], items[j]) by {
        lemma_objects_members(items, j);
        let a = t[j]->Object_0;
        let b = members_of(items[j]);
        assert(items[j] is Object && flat_ok(b));
        assert(items[j] == SpecJson::Object(b));
        assert forall|i: int| 0 <= i < a.len() implies !((#[trigger] a[i]).1 is Object) && !(a[i].1 is Array) by {
            assert(b.contains(a[i]));
            let k = choose|k: int| 0 <= k < b.len() && b[k] == a[i];
            assert(crate::readback::writable_scalar(b[k].1));
        }
        crate::json::lemma_equiv_same_members(a, b);
    }
}

proof fn lemma_rows_no_nul(items: Seq<SpecJson>, k: int)
    requires
        objects_ok(items),
        0 <= k <= items.len(),
    ensures
        no_nul(rows_text(full_table(items), k)),
    decreases k,
{
    if k > 0 {
        lemma_rows_no_nul(items, k - 1);
        lemma_row_reads(items, k - 1);
        let a = rows_text(full_table(items), k - 1);
        let b = table_row_line(items, k - 1);
        let t = rows_text(full_table(items), k);
        assert(t == a + b + seq!['\n']);
        assert forall|i: int| 0 <= i < t.len() implies #[trigger] t[i] != '\0' by {
            if i < a.len() {
                assert(t[i] == a[i]);
            } else if i < a.len() + b.len() {
                assert(t[i] == b[i - a.len()]);
            }
        }
    }
}

} // verus!
