use vstd::prelude::*;

use crate::lexer::{cells_model, Cell, SCell};

verus! {

/// A document after structural collection: sections with their header and rows.
pub struct Document {
    pub root_array: bool,
    pub sections: Vec<Section>,
}

pub struct Section {
    pub name: String,
    pub array: bool,
    pub header_line: usize,
    pub header: Vec<String>,
    pub rows: Vec<Row>,
}

pub struct Row {
    pub line: usize,
    pub cells: Vec<Cell>,
}

pub struct SDoc {
    pub root_array: bool,
    pub sections: Seq<SSection>,
}

pub struct SSection {
    pub name: Seq<char>,
    pub array: bool,
    pub header_line: nat,
    pub header: Seq<Seq<char>>,
    pub rows: Seq<SRow>,
}

pub struct SRow {
    pub line: nat,
    pub cells: Seq<SCell>,
}

impl Row {
    pub open spec fn model(&self) -> SRow {
        SRow { line: self.line as nat, cells: cells_model(self.cells@) }
    }
}

pub open spec fn rows_model(v: Seq<Row>) -> Seq<SRow> {
    v.map_values(|r: Row| r.model())
}

pub open spec fn strings_model(v: Seq<String>) -> Seq<Seq<char>> {
    v.map_values(|s: String| s@)
}

impl Section {
    pub open spec fn model(&self) -> SSection {
        SSection {
            name: self.name@,
            array: self.array,
            header_line: self.header_line as nat,
            header: strings_model(self.header@),
            rows: rows_model(self.rows@),
        }
    }
}

pub open spec fn sections_model(v: Seq<Section>) -> Seq<SSection> {
    v.map_values(|s: Section| s.model())
}

impl Document {
    pub open spec fn model(&self) -> SDoc {
        SDoc { root_array: self.root_array, sections: sections_model(self.sections@) }
    }

    /// The first section, which holds the root.
    pub fn root_section(&self) -> (r: Option<&Section>)
        ensures
            match r {
                Some(s) => self.sections@.len() > 0 && *s == self.sections@[0],
                None => self.sections@.len() == 0,
            },
    {
        if self.sections.len() > 0 {
            Some(&self.sections[0])
        } else {
            None
        }
    }

    /// The first section called `name`, with its index.
    pub fn find_section(&self, name: &String) -> (r: Option<(usize, &Section)>)
        ensures
            r matches Some((i, s)) ==> i < self.sections@.len() && *s == self.sections@[i as int],
            spec_find_section(self.model().sections, name@) == match r {
                Some((i, _)) => Some(i as nat),
                None => None::<nat>,
            },
    {
        let mut i: usize = 0;
        while i < self.sections.len()
            invariant
                i <= self.sections@.len(),
                spec_find_section(self.model().sections, name@) == find_section_from(
                    self.model().sections,
                    name@,
                    i as int,
                ),
            decreases self.sections@.len() - i,
        {
            if self.sections[i].name == *name {
                return Some((i, &self.sections[i]));
            }
            i += 1;
        }
        None
    }
}

/// The first index at or after `i` of a section called `name`.
pub open spec fn find_section_from(secs: Seq<SSection>, name: Seq<char>, i: int) -> Option<nat>
    decreases secs.len() - i,
{
    if i < 0 || i >= secs.len() {
        None
    } else if secs[i].name == name {
        Some(i as nat)
    } else {
        find_section_from(secs, name, i + 1)
    }
}

pub open spec fn spec_find_section(secs: Seq<SSection>, name: Seq<char>) -> Option<nat> {
    find_section_from(secs, name, 0)
}

} // verus!
