use vstd::prelude::*;
use crate::text::{dec, push_decimal, push_str_chars, string_of};

verus! {

/// All errors produced by `parse`, `encode` and `validate`.
#[derive(Debug, Clone, PartialEq, Eq)]
pub enum NormError {
    /// UTF-8 BOM detected at the start of the input.
    BomDetected,
    /// Null byte encountered anywhere in the input.
    NullByte { line: usize },
    /// The first non-comment line is not `:root` or `:root[]`.
    MissingRootDeclaration,
    /// A `:root` line is present but malformed (trailing garbage after `:root`, say), or
    /// repeated.
    InvalidRootDeclaration { line: usize },
    /// Section name does not match `[a-zA-Z_][a-zA-Z0-9_]*`.
    InvalidSectionName { line: usize, name: String },
    /// Two sections share the same name.
    DuplicateSectionName { line: usize, name: String },
    /// Section was defined but never reached from the root.
    UnreachableSection { name: String },
    /// The same pk value appears in two rows.
    DuplicatePk { line: usize, pk: String },
    /// pk value is not a non-negative integer, or has a leading zero.
    InvalidPk { line: usize, value: String },
    /// `@N` or `@name` reference does not match any row or section.
    UnresolvedReference { line: usize, reference: String },
    /// Reference resolution revisits a row or section already in flight.
    CircularReference { reference: String },
    /// `:root` (object) document whose root section has more than one data row.
    MultipleRootRows { line: usize },
    /// `:root` (object) declaration but the first section is an array section.
    ArraySectionAsRoot { line: usize },
    /// A blank row inside an array section, or an array row that resolves to nothing.
    EmptyArrayRow { line: usize },
    /// A data row outside any containing section.
    UnexpectedDataRow { line: usize },
    /// The encoder received a scalar root.
    ScalarRoot,
}

/// Mathematical model of a `NormError`.
pub enum SpecError {
    BomDetected,
    NullByte { line: nat },
    MissingRootDeclaration,
    InvalidRootDeclaration { line: nat },
    InvalidSectionName { line: nat, name: Seq<char> },
    DuplicateSectionName { line: nat, name: Seq<char> },
    UnreachableSection { name: Seq<char> },
    DuplicatePk { line: nat, pk: Seq<char> },
    InvalidPk { line: nat, value: Seq<char> },
    UnresolvedReference { line: nat, reference: Seq<char> },
    CircularReference { reference: Seq<char> },
    MultipleRootRows { line: nat },
    ArraySectionAsRoot { line: nat },
    EmptyArrayRow { line: nat },
    UnexpectedDataRow { line: nat },
    ScalarRoot,
}

impl NormError {
    pub open spec fn model(&self) -> SpecError {
        match self {
            NormError::BomDetected => SpecError::BomDetected,
            NormError::NullByte { line } => SpecError::NullByte { line: *line as nat },
            NormError::MissingRootDeclaration => SpecError::MissingRootDeclaration,
            NormError::InvalidRootDeclaration { line } => SpecError::InvalidRootDeclaration {
                line: *line as nat,
            },
            NormError::InvalidSectionName { line, name } => SpecError::InvalidSectionName {
                line: *line as nat,
                name: name@,
            },
            NormError::DuplicateSectionName { line, name } => SpecError::DuplicateSectionName {
                line: *line as nat,
                name: name@,
            },
            NormError::UnreachableSection { name } => SpecError::UnreachableSection { name: name@ },
            NormError::DuplicatePk { line, pk } => SpecError::DuplicatePk {
                line: *line as nat,
                pk: pk@,
            },
            NormError::InvalidPk { line, value } => SpecError::InvalidPk {
                line: *line as nat,
                value: value@,
            },
            NormError::UnresolvedReference { line, reference } => SpecError::UnresolvedReference {
                line: *line as nat,
                reference: reference@,
            },
            NormError::CircularReference { reference } => SpecError::CircularReference {
                reference: reference@,
            },
            NormError::MultipleRootRows { line } => SpecError::MultipleRootRows {
                line: *line as nat,
            },
            NormError::ArraySectionAsRoot { line } => SpecError::ArraySectionAsRoot {
                line: *line as nat,
            },
            NormError::EmptyArrayRow { line } => SpecError::EmptyArrayRow { line: *line as nat },
            NormError::UnexpectedDataRow { line } => SpecError::UnexpectedDataRow {
                line: *line as nat,
            },
            NormError::ScalarRoot => SpecError::ScalarRoot,
        }
    }
}

/// The models of a sequence of errors.
pub open spec fn errors_model(v: Seq<NormError>) -> Seq<SpecError> {
    v.map_values(|e: NormError| e.model())
}

/// The text that `{:?}` gives for a string: the string between double quotes, with its
/// quotes, backslashes and control characters escaped.
pub uninterp spec fn debug_quoted(s: Seq<char>) -> Seq<char>;

/// `<str as Debug>::fmt`, through `format!("{:?}", ..)`: the result is `debug_quoted` of the
/// string. What the escaping does to each character (it goes by the Unicode tables of the
/// standard library) is left unstated.
#[verifier::external_body]
fn quoted_debug(s: &str) -> (r: String)
    ensures
        r@ == debug_quoted(s@),
{
    format!("{:?}", s)
}

/// The message of an error, as the command line prints it.
pub open spec fn spec_message(e: SpecError) -> Seq<char> {
    match e {
        SpecError::BomDetected => "UTF-8 BOM detected; NORM files must not contain a BOM"@,
        SpecError::NullByte { line } => "null byte at line "@ + dec(line),
        SpecError::MissingRootDeclaration =>
            "missing root declaration; first non-comment line must be :root or :root[]"@,
        SpecError::InvalidRootDeclaration { line } => "invalid root declaration at line "@ + dec(
            line,
        ),
        SpecError::InvalidSectionName { line, name } => "invalid section name "@ + debug_quoted(
            name,
        ) + " at line "@ + dec(line),
        SpecError::DuplicateSectionName { line, name } => "duplicate section name "@
            + debug_quoted(name) + " at line "@ + dec(line),
        SpecError::UnreachableSection { name } => "section "@ + debug_quoted(name)
            + " is unreachable from the root"@,
        SpecError::DuplicatePk { line, pk } => "duplicate pk "@ + pk + " at line "@ + dec(line),
        SpecError::InvalidPk { line, value } => "invalid pk value "@ + debug_quoted(value)
            + " at line "@ + dec(line) + " (leading zeros not permitted)"@,
        SpecError::UnresolvedReference { line, reference } => "unresolved reference "@
            + debug_quoted(reference) + " at line "@ + dec(line),
        SpecError::CircularReference { reference } => "circular reference detected involving "@
            + debug_quoted(reference),
        SpecError::MultipleRootRows { line } =>
            ":root document has multiple rows in its root section (line "@ + dec(line) + ")"@,
        SpecError::ArraySectionAsRoot { line } =>
            ":root declaration but root section is an array section at line "@ + dec(line),
        SpecError::EmptyArrayRow { line } => "empty row in array section at line "@ + dec(line),
        SpecError::UnexpectedDataRow { line } => "unexpected data row at line "@ + dec(line)
            + " (no containing section)"@,
        SpecError::ScalarRoot =>
            "encoder: root JSON value must be an object or array, not a scalar"@,
    }
}

fn push_line(out: &mut Vec<char>, line: usize)
    ensures
        final(out)@ == old(out)@ + dec(line as nat),
{
    push_decimal(out, line as u128);
}

fn push_quoted(out: &mut Vec<char>, s: &String)
    ensures
        final(out)@ == old(out)@ + debug_quoted(s@),
{
    let q = quoted_debug(s.as_str());
    push_str_chars(out, q.as_str());
}

impl NormError {
    /// The message of this error, as the command line prints it.
    pub fn message(&self) -> (r: String)
        ensures
            r@ == spec_message(self.model()),
    {
        let mut out: Vec<char> = Vec::new();
        match self {
            NormError::BomDetected => {
                push_str_chars(&mut out, "UTF-8 BOM detected; NORM files must not contain a BOM");
            },
            NormError::NullByte { line } => {
                push_str_chars(&mut out, "null byte at line ");
                push_line(&mut out, *line);
            },
            NormError::MissingRootDeclaration => {
                push_str_chars(
                    &mut out,
                    "missing root declaration; first non-comment line must be :root or :root[]",
                );
            },
            NormError::InvalidRootDeclaration { line } => {
                push_str_chars(&mut out, "invalid root declaration at line ");
                push_line(&mut out, *line);
            },
            NormError::InvalidSectionName { line, name } => {
                push_str_chars(&mut out, "invalid section name ");
                push_quoted(&mut out, name);
                push_str_chars(&mut out, " at line ");
                push_line(&mut out, *line);
            },
            NormError::DuplicateSectionName { line, name } => {
                push_str_chars(&mut out, "duplicate section name ");
                push_quoted(&mut out, name);
                push_str_chars(&mut out, " at line ");
                push_line(&mut out, *line);
            },
            NormError::UnreachableSection { name } => {
                push_str_chars(&mut out, "section ");
                push_quoted(&mut out, name);
                push_str_chars(&mut out, " is unreachable from the root");
            },
            NormError::DuplicatePk { line, pk } => {
                push_str_chars(&mut out, "duplicate pk ");
                push_str_chars(&mut out, pk.as_str());
                push_str_chars(&mut out, " at line ");
                push_line(&mut out, *line);
            },
            NormError::InvalidPk { line, value } => {
                push_str_chars(&mut out, "invalid pk value ");
                push_quoted(&mut out, value);
                push_str_chars(&mut out, " at line ");
                push_line(&mut out, *line);
                push_str_chars(&mut out, " (leading zeros not permitted)");
            },
            NormError::UnresolvedReference { line, reference } => {
                push_str_chars(&mut out, "unresolved reference ");
                push_quoted(&mut out, reference);
                push_str_chars(&mut out, " at line ");
                push_line(&mut out, *line);
            },
            NormError::CircularReference { reference } => {
                push_str_chars(&mut out, "circular reference detected involving ");
                push_quoted(&mut out, reference);
            },
            NormError::MultipleRootRows { line } => {
                push_str_chars(
                    &mut out,
                    ":root document has multiple rows in its root section (line ",
                );
                push_line(&mut out, *line);
                push_str_chars(&mut out, ")");
            },
            NormError::ArraySectionAsRoot { line } => {
                push_str_chars(
                    &mut out,
                    ":root declaration but root section is an array section at line ",
                );
                push_line(&mut out, *line);
            },
            NormError::EmptyArrayRow { line } => {
                push_str_chars(&mut out, "empty row in array section at line ");
                push_line(&mut out, *line);
            },
            NormError::UnexpectedDataRow { line } => {
                push_str_chars(&mut out, "unexpected data row at line ");
                push_line(&mut out, *line);
                push_str_chars(&mut out, " (no containing section)");
            },
            NormError::ScalarRoot => {
                push_str_chars(
                    &mut out,
                    "encoder: root JSON value must be an object or array, not a scalar",
                );
            },
        }
        proof {
            assert(out@ =~= spec_message(self.model()));
        }
        string_of(&out)
    }
}

} // verus!
