//! The canonical data model: compilation entries, write-time format options,
//! and the error taxonomy of the codec.

use vstd::prelude::*;

verus! {

/// One compilation step of the database.
///
/// `directory` is the working directory of the compilation; `file` is the
/// main translation unit compiled by the step; `arguments` is the literal
/// compiler invocation, program name first, and a valid entry has at least
/// one argument; `output` optionally names the artifact the step produces.
#[derive(Debug, Clone)]
pub struct Entry {
    pub directory: String,
    pub file: String,
    pub arguments: Vec<String>,
    pub output: Option<String>,
}

/// The content of a compilation database: an ordered list of entries.
pub type Entries = Vec<Entry>;

/// The mathematical value of an [`Entry`]: its fields as sequences.
pub struct EntryV {
    pub directory: Seq<char>,
    pub file: Seq<char>,
    pub arguments: Seq<Seq<char>>,
    pub output: Option<Seq<char>>,
}

impl DeepView for Entry {
    type V = EntryV;

    open spec fn deep_view(&self) -> EntryV {
        EntryV {
            directory: self.directory@,
            file: self.file@,
            arguments: self.arguments.deep_view(),
            output: self.output.deep_view(),
        }
    }
}

/// A valid entry carries at least one argument (the program name).
pub open spec fn entry_valid(e: EntryV) -> bool {
    e.arguments.len() >= 1
}

/// Entries are compared over `(directory, file, arguments)`: the `output`
/// field is informative but not identity-bearing.
impl PartialEq for Entry {
    fn eq(&self, other: &Entry) -> (r: bool) {
        proof {
            assert(self.arguments.deep_view().len() == self.arguments@.len());
            assert(other.arguments.deep_view().len() == other.arguments@.len());
        }
        if !(self.directory == other.directory) {
            return false;
        }
        if !(self.file == other.file) {
            return false;
        }
        if self.arguments.len() != other.arguments.len() {
            return false;
        }
        let n = self.arguments.len();
        let mut i: usize = 0;
        let mut same = true;
        while i < n
            invariant
                n == self.arguments.len() == other.arguments.len(),
                i <= n,
                same <==> (forall|k: int|
                    0 <= k < i ==> self.arguments@[k]@ == other.arguments@[k]@),
            decreases n - i,
        {
            if !(self.arguments[i] == other.arguments[i]) {
                same = false;
            }
            i = i + 1;
        }
        proof {
            if same {
                assert(self.arguments.deep_view() =~~= other.arguments.deep_view());
            } else {
                let k = choose|k: int|
                    0 <= k < n && self.arguments@[k]@ != other.arguments@[k]@;
                assert(self.arguments.deep_view()[k] == self.arguments@[k]@);
                assert(other.arguments.deep_view()[k] == other.arguments@[k]@);
                assert(self.arguments.deep_view() != other.arguments.deep_view());
            }
        }
        same
    }
}

impl vstd::std_specs::cmp::PartialEqSpecImpl for Entry {
    open spec fn obeys_eq_spec() -> bool {
        true
    }

    open spec fn eq_spec(&self, other: &Entry) -> bool {
        self.directory@ == other.directory@ && self.file@ == other.file@
            && self.arguments.deep_view() == other.arguments.deep_view()
    }
}

/// The write-time rendering choices.
///
/// With `command_as_array` the command line is written as an `arguments`
/// JSON array; without it, as a single shell-escaped `command` string.
/// With `drop_output_field` the `output` field is omitted even when the
/// entry carries one.
#[derive(Debug, Clone, Copy, PartialEq, Eq, Structural)]
pub struct Format {
    pub command_as_array: bool,
    pub drop_output_field: bool,
}

impl Default for Format {
    /// The default format writes `arguments` arrays and keeps `output`.
    fn default() -> (r: Format)
        ensures
            r.command_as_array && !r.drop_output_field,
    {
        Format { command_as_array: true, drop_output_field: false }
    }
}

/// Why the input text is not a well-formed compilation database document.
#[derive(Debug, Clone, PartialEq, Eq, Structural)]
pub enum SyntaxFault {
    /// The input is not well-formed JSON text.
    Malformed,
    /// The top-level JSON value is not an array.
    TopLevelNotArray,
    /// The array element at this index is not an object.
    ElementNotObject(usize),
}

/// Why one structurally parsed entry object is semantically invalid.
#[derive(Debug, Clone)]
pub enum Fault {
    /// A required field is absent; the payload names the field.
    MissingField(String),
    /// A field is present with a value of the wrong JSON type.
    WrongFieldType(String),
    /// A field appears more than once in the object.
    DuplicateField(String),
    /// Neither `command` nor `arguments` is present.
    NoCommand,
    /// The `command` string has mismatched quotes; the payload is that string.
    BadQuoting(String),
    /// The argument list is empty.
    EmptyArguments,
}

/// The mathematical value of a [`Fault`].
pub enum FaultV {
    MissingField(Seq<char>),
    WrongFieldType(Seq<char>),
    DuplicateField(Seq<char>),
    NoCommand,
    BadQuoting(Seq<char>),
    EmptyArguments,
}

impl DeepView for Fault {
    type V = FaultV;

    open spec fn deep_view(&self) -> FaultV {
        match self {
            Fault::MissingField(f) => FaultV::MissingField(f@),
            Fault::WrongFieldType(f) => FaultV::WrongFieldType(f@),
            Fault::DuplicateField(f) => FaultV::DuplicateField(f@),
            Fault::NoCommand => FaultV::NoCommand,
            Fault::BadQuoting(c) => FaultV::BadQuoting(c@),
            Fault::EmptyArguments => FaultV::EmptyArguments,
        }
    }
}

/// A semantic fault together with the index of the offending entry.
#[derive(Debug, Clone)]
pub struct EntryFault {
    pub index: usize,
    pub fault: Fault,
}

/// The mathematical value of an [`EntryFault`].
pub struct EntryFaultV {
    pub index: int,
    pub fault: FaultV,
}

impl DeepView for EntryFault {
    type V = EntryFaultV;

    open spec fn deep_view(&self) -> EntryFaultV {
        EntryFaultV { index: self.index as int, fault: self.fault.deep_view() }
    }
}

/// The error taxonomy of the codec.
///
/// `IoError` is reserved for collaborators that read or write streams; the
/// codec itself never produces it.  `SyntaxError` marks input that is not a
/// well-formed JSON array of objects.  `SemanticError` marks entries that
/// parsed structurally but violate the schema; it aggregates one fault for
/// every offending entry rather than stopping at the first.
#[derive(Debug, Clone)]
pub enum Error {
    IoError(String),
    SyntaxError(SyntaxFault),
    SemanticError(Vec<EntryFault>),
}

/// The mathematical value of an [`Error`].
pub enum ErrorV {
    Io(Seq<char>),
    Syntax(SyntaxFault),
    Semantic(Seq<EntryFaultV>),
}

impl DeepView for Error {
    type V = ErrorV;

    open spec fn deep_view(&self) -> ErrorV {
        match self {
            Error::IoError(m) => ErrorV::Io(m@),
            Error::SyntaxError(f) => ErrorV::Syntax(*f),
            Error::SemanticError(fs) => ErrorV::Semantic(fs.deep_view()),
        }
    }
}

} // verus!
