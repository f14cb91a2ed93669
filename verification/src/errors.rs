//! The error taxonomy of the resolution pipeline: grammar errors, semantic
//! errors around `include`, and path errors found while resolving the tree.
use crate::strutil::{join_strings, spec_join_sep};
use vstd::prelude::*;
use vstd::string::StringExecFns;

verus! {

/// The digit character of a value below ten.
pub open spec fn spec_digit(d: int) -> char {
    if d == 0 {
        '0'
    } else if d == 1 {
        '1'
    } else if d == 2 {
        '2'
    } else if d == 3 {
        '3'
    } else if d == 4 {
        '4'
    } else if d == 5 {
        '5'
    } else if d == 6 {
        '6'
    } else if d == 7 {
        '7'
    } else if d == 8 {
        '8'
    } else {
        '9'
    }
}

/// The decimal numeral of `n`, most significant digit first.
pub open spec fn spec_decimal(n: nat) -> Seq<char>
    decreases n,
{
    if n < 10 {
        seq![spec_digit(n as int)]
    } else {
        spec_decimal(n / 10) + seq![spec_digit((n % 10) as int)]
    }
}

/// Render a number in decimal.
pub fn decimal_string(n: usize) -> (r: String)
    ensures
        r@ == spec_decimal(n as nat),
    decreases n,
{
    let digits = "0123456789";
    proof {
        reveal_strlit("0123456789");
    }
    let d = n % 10;
    let ds = digits.substring_char(d, d + 1);
    proof {
        assert(ds@ =~= seq![spec_digit(d as int)]);
    }
    if n < 10 {
        ds.to_owned()
    } else {
        let mut r = decimal_string(n / 10);
        r.append(ds);
        proof {
            assert(r@ =~= spec_decimal(n as nat));
        }
        r
    }
}

/// Abstract value of an [`OwnersError`].
pub enum OwnersErrorV {
    /// A line beginning `set ` that does not match `set <variable> = <value>`.
    MalformedSetLine { line: Seq<char> },
    /// A directive naming a variable other than `inherit`.
    UnknownSetVariable { variable: Seq<char> },
    /// `set inherit = <value>` with a value other than `true` or `false`.
    InvalidInheritValue { value: Seq<char> },
    /// An `include` line without a single non-whitespace path token.
    MalformedInclude { line: Seq<char> },
    /// An `include` line inside a `[pattern]` section.
    IncludeInPatternSection,
    /// An include whose resolved path leaves the repository base.
    IncludeOutsideRepo { path: Seq<char> },
    /// An include whose resolved path is not present in the file store.
    MissingIncludeFile { path: Seq<char> },
    /// An include of a file that is already being expanded; the chain runs
    /// from the outermost file to the repeated one.
    IncludeCycle { chain: Seq<Seq<char>> },
    /// A `set` directive found inside an included file.
    SetInsideInclude,
    /// An owner identifier containing internal whitespace.
    OwnerWithWhitespace { owner: Seq<char> },
    /// A tree node whose path does not lie under the resolution root.
    PathOutsideRoot { path: Seq<char> },
    /// An error with the file and 1-based line number where it was found.
    AtLine { error: Box<OwnersErrorV>, path: Seq<char>, line_number: nat },
}

/// An error that aborts the whole pipeline run.
#[derive(Debug)]
pub enum OwnersError {
    MalformedSetLine { line: String },
    UnknownSetVariable { variable: String },
    InvalidInheritValue { value: String },
    MalformedInclude { line: String },
    IncludeInPatternSection,
    IncludeOutsideRepo { path: String },
    MissingIncludeFile { path: String },
    IncludeCycle { chain: Vec<String> },
    SetInsideInclude,
    OwnerWithWhitespace { owner: String },
    PathOutsideRoot { path: String },
    AtLine { error: Box<OwnersError>, path: String, line_number: usize },
}

/// Abstract value of an error term.
pub open spec fn err_view(e: OwnersError) -> OwnersErrorV
    decreases e,
{
    match e {
        OwnersError::MalformedSetLine { line } => OwnersErrorV::MalformedSetLine { line: line@ },
        OwnersError::UnknownSetVariable { variable } => OwnersErrorV::UnknownSetVariable {
            variable: variable@,
        },
        OwnersError::InvalidInheritValue { value } => OwnersErrorV::InvalidInheritValue {
            value: value@,
        },
        OwnersError::MalformedInclude { line } => OwnersErrorV::MalformedInclude { line: line@ },
        OwnersError::IncludeInPatternSection => OwnersErrorV::IncludeInPatternSection,
        OwnersError::IncludeOutsideRepo { path } => OwnersErrorV::IncludeOutsideRepo {
            path: path@,
        },
        OwnersError::MissingIncludeFile { path } => OwnersErrorV::MissingIncludeFile {
            path: path@,
        },
        OwnersError::IncludeCycle { chain } => OwnersErrorV::IncludeCycle {
            chain: chain@.map_values(|p: String| p@),
        },
        OwnersError::SetInsideInclude => OwnersErrorV::SetInsideInclude,
        OwnersError::OwnerWithWhitespace { owner } => OwnersErrorV::OwnerWithWhitespace {
            owner: owner@,
        },
        OwnersError::PathOutsideRoot { path } => OwnersErrorV::PathOutsideRoot { path: path@ },
        OwnersError::AtLine { error, path, line_number } => OwnersErrorV::AtLine {
            error: Box::new(err_view(*error)),
            path: path@,
            line_number: line_number as nat,
        },
    }
}

impl View for OwnersError {
    type V = OwnersErrorV;

    open spec fn view(&self) -> OwnersErrorV {
        err_view(*self)
    }
}

/// The rendered diagnostic text of an error.
pub open spec fn spec_message(e: OwnersErrorV) -> Seq<char>
    decreases e,
{
    match e {
        OwnersErrorV::MalformedSetLine { line } => "Invalid set format '"@ + line
            + "'. Expected 'set <variable> = <value>'."@,
        OwnersErrorV::UnknownSetVariable { variable } => "Invalid set variable '"@ + variable
            + "'"@,
        OwnersErrorV::InvalidInheritValue { value } => "Invalid value for inherit '"@ + value
            + "': Must be 'true' or 'false'."@,
        OwnersErrorV::MalformedInclude { line } => "Invalid include format '"@ + line
            + "'. Expected 'include <path>'."@,
        OwnersErrorV::IncludeInPatternSection => "include is not allowed in path-specific sections."@,
        OwnersErrorV::IncludeOutsideRepo { path } => "Include path '"@ + path
            + "' is outside the repository base."@,
        OwnersErrorV::MissingIncludeFile { path } => "Missing include file '"@ + path + "'."@,
        OwnersErrorV::IncludeCycle { chain } => "Cycle detected in includes: "@ + spec_join_sep(
            chain,
            " -> "@,
        ),
        OwnersErrorV::SetInsideInclude => "set statements are not allowed inside includes."@,
        OwnersErrorV::OwnerWithWhitespace { owner } => "Invalid user/group '"@ + owner
            + "' cannot contain whitespace."@,
        OwnersErrorV::PathOutsideRoot { path } => "Path '"@ + path
            + "' is outside the resolution root."@,
        OwnersErrorV::AtLine { error, path, line_number } => spec_message(*error) + " Found at "@
            + path + ":"@ + spec_decimal(line_number),
    }
}

impl OwnersError {
    /// One line of diagnostic text describing the error.
    pub fn message(&self) -> (r: String)
        ensures
            r@ == spec_message(self@),
        decreases *self,
    {
        match self {
            OwnersError::MalformedSetLine { line } => {
                let mut r = "Invalid set format '".to_owned();
                r.append(line.as_str());
                r.append("'. Expected 'set <variable> = <value>'.");
                r
            },
            OwnersError::UnknownSetVariable { variable } => {
                let mut r = "Invalid set variable '".to_owned();
                r.append(variable.as_str());
                r.append("'");
                r
            },
            OwnersError::InvalidInheritValue { value } => {
                let mut r = "Invalid value for inherit '".to_owned();
                r.append(value.as_str());
                r.append("': Must be 'true' or 'false'.");
                r
            },
            OwnersError::MalformedInclude { line } => {
                let mut r = "Invalid include format '".to_owned();
                r.append(line.as_str());
                r.append("'. Expected 'include <path>'.");
                r
            },
            OwnersError::IncludeInPatternSection => {
                "include is not allowed in path-specific sections.".to_owned()
            },
            OwnersError::IncludeOutsideRepo { path } => {
                let mut r = "Include path '".to_owned();
                r.append(path.as_str());
                r.append("' is outside the repository base.");
                r
            },
            OwnersError::MissingIncludeFile { path } => {
                let mut r = "Missing include file '".to_owned();
                r.append(path.as_str());
                r.append("'.");
                r
            },
            OwnersError::IncludeCycle { chain } => {
                let mut r = "Cycle detected in includes: ".to_owned();
                let joined = join_strings(chain, " -> ");
                r.append(joined.as_str());
                r
            },
            OwnersError::SetInsideInclude => {
                "set statements are not allowed inside includes.".to_owned()
            },
            OwnersError::OwnerWithWhitespace { owner } => {
                let mut r = "Invalid user/group '".to_owned();
                r.append(owner.as_str());
                r.append("' cannot contain whitespace.");
                r
            },
            OwnersError::PathOutsideRoot { path } => {
                let mut r = "Path '".to_owned();
                r.append(path.as_str());
                r.append("' is outside the resolution root.");
                r
            },
            OwnersError::AtLine { error, path, line_number } => {
                let mut r = error.message();
                r.append(" Found at ");
                r.append(path.as_str());
                r.append(":");
                let num = decimal_string(*line_number);
                r.append(num.as_str());
                r
            },
        }
    }

    /// The error, wrapped with the file and 1-based line where it was found.
    pub fn at_line(self, path: &str, line_number: usize) -> (r: OwnersError)
        ensures
            r@ == (OwnersErrorV::AtLine {
                error: Box::new(self@),
                path: path@,
                line_number: line_number as nat,
            }),
    {
        OwnersError::AtLine { error: Box::new(self), path: path.to_owned(), line_number }
    }
}

} // verus!
