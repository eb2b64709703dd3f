use vstd::prelude::*;

verus! {

/// The kinds of failure that the store reports.
#[derive(Clone, Copy, Debug, PartialEq, Eq, Structural)]
pub enum Code {
    /// The path, or the directory that should hold it, is not there, or a file
    /// stands where the path goes on.
    NotFound,
    /// The request itself is at fault.
    InvalidArgument,
    /// The request was in order and what it asked for failed while running.
    FailedPrecondition,
}

/// Why a request failed.
#[derive(Clone, Copy, Debug, PartialEq, Eq, Structural)]
pub enum Failure {
    /// Nothing, or no file, is at the path.
    NoSuchFile,
    /// The path's directory is missing or is a file.
    NoSuchDirectory,
    /// A path to write to names nothing.
    IllegalFilename,
    /// A path for a new directory names nothing.
    IllegalDirname,
    /// The path to write to is a directory.
    WriteToDirectory,
    /// A file stands where a directory was to be made.
    FileExists,
    /// The code is no module that can be run.
    InvalidCode,
    /// The module lacks the function that is called.
    MissingEntry,
    /// The module's function did not run to its end.
    ExecutionError,
}

impl Failure {
    /// The kind that this failure belongs to.
    pub open spec fn kind(self) -> Code {
        match self {
            Failure::NoSuchFile | Failure::NoSuchDirectory => Code::NotFound,
            Failure::IllegalFilename
            | Failure::IllegalDirname
            | Failure::WriteToDirectory
            | Failure::FileExists
            | Failure::InvalidCode
            | Failure::MissingEntry => Code::InvalidArgument,
            Failure::ExecutionError => Code::FailedPrecondition,
        }
    }

    /// The words that go with this failure.
    pub open spec fn text(self) -> Seq<char> {
        match self {
            Failure::NoSuchFile => "no such file"@,
            Failure::NoSuchDirectory => "no such directory"@,
            Failure::IllegalFilename => "illegal filename"@,
            Failure::IllegalDirname => "illegal dirname"@,
            Failure::WriteToDirectory => "cannot write to directory"@,
            Failure::FileExists => "file exists"@,
            Failure::InvalidCode => "invalid code"@,
            Failure::MissingEntry => "missing entry function"@,
            Failure::ExecutionError => "execution error"@,
        }
    }

    /// The kind that this failure belongs to.
    pub fn code(&self) -> (r: Code)
        ensures
            r == self.kind(),
    {
        match self {
            Failure::NoSuchFile | Failure::NoSuchDirectory => Code::NotFound,
            Failure::IllegalFilename
            | Failure::IllegalDirname
            | Failure::WriteToDirectory
            | Failure::FileExists
            | Failure::InvalidCode
            | Failure::MissingEntry => Code::InvalidArgument,
            Failure::ExecutionError => Code::FailedPrecondition,
        }
    }

    /// The words that go with this failure.
    pub fn message(&self) -> (r: &'static str)
        ensures
            r@ == self.text(),
    {
        match self {
            Failure::NoSuchFile => "no such file",
            Failure::NoSuchDirectory => "no such directory",
            Failure::IllegalFilename => "illegal filename",
            Failure::IllegalDirname => "illegal dirname",
            Failure::WriteToDirectory => "cannot write to directory",
            Failure::FileExists => "file exists",
            Failure::InvalidCode => "invalid code",
            Failure::MissingEntry => "missing entry function",
            Failure::ExecutionError => "execution error",
        }
    }
}

} // verus!
