//! How a load can fail, and what the program tells of it.

use vstd::prelude::*;

verus! {

/// Why a module was not loaded.
#[derive(Debug, Clone, Copy, PartialEq, Eq, Structural)]
pub enum ErrorCode {
    /// The process is not in a state to load modules.
    InvalidProcess,
    /// The module cannot be read.
    ReadFileFailed,
    /// The module is no valid ELF file.
    ReadElfFailed,
    /// The module's symbol table cannot be patched.
    AppendElfFailed,
    /// The kernel's symbols cannot be read or parsed.
    ParseKallsymsFailed,
    /// The kernel rejects the module.
    InitModuleFailed,
    /// The module's vermagic cannot be replaced.
    ReplaceVermagicFailed,
}

impl ErrorCode {
    /// The number of the error.
    pub open spec fn number(self) -> i32 {
        match self {
            ErrorCode::InvalidProcess => 1,
            ErrorCode::ReadFileFailed => 2,
            ErrorCode::ReadElfFailed => 3,
            ErrorCode::AppendElfFailed => 4,
            ErrorCode::ParseKallsymsFailed => 5,
            ErrorCode::InitModuleFailed => 6,
            ErrorCode::ReplaceVermagicFailed => 7,
        }
    }

    /// What the program says of the error, if anything.
    pub open spec fn summary(self) -> Option<Seq<char>> {
        match self {
            ErrorCode::InvalidProcess => Some("Invalid process"@),
            ErrorCode::ReadFileFailed => Some("Could not read file"@),
            ErrorCode::ReadElfFailed => Some("Could not read ELF header of file"@),
            ErrorCode::AppendElfFailed => Some("Could not append modifications to ELF"@),
            ErrorCode::ParseKallsymsFailed => Some("Could not parse kallsyms"@),
            ErrorCode::InitModuleFailed => Some("Module init failed"@),
            ErrorCode::ReplaceVermagicFailed => None,
        }
    }

    /// The exit code of the program after the error: the error's number, moved out
    /// of the way of the codes for failures that come before a load.
    pub fn exit_code(self) -> (code: i32)
        ensures
            code == 4 * self.number(),
    {
        match self {
            ErrorCode::InvalidProcess => 4,
            ErrorCode::ReadFileFailed => 8,
            ErrorCode::ReadElfFailed => 12,
            ErrorCode::AppendElfFailed => 16,
            ErrorCode::ParseKallsymsFailed => 20,
            ErrorCode::InitModuleFailed => 24,
            ErrorCode::ReplaceVermagicFailed => 28,
        }
    }

    /// What the program says of the error, if anything.
    pub fn message(self) -> (message: Option<&'static str>)
        ensures
            match self.summary() {
                Some(summary) => message is Some && message->0@ == summary,
                None => message is None,
            },
    {
        match self {
            ErrorCode::InvalidProcess => Some("Invalid process"),
            ErrorCode::ReadFileFailed => Some("Could not read file"),
            ErrorCode::ReadElfFailed => Some("Could not read ELF header of file"),
            ErrorCode::AppendElfFailed => Some("Could not append modifications to ELF"),
            ErrorCode::ParseKallsymsFailed => Some("Could not parse kallsyms"),
            ErrorCode::InitModuleFailed => Some("Module init failed"),
            ErrorCode::ReplaceVermagicFailed => None,
        }
    }
}

/// Different errors have different exit codes, and none of them is a code that the
/// program uses for something else.
pub proof fn law_exit_codes_differ(a: ErrorCode, b: ErrorCode)
    ensures
        4 * a.number() > 3,
        a != b ==> 4 * a.number() != 4 * b.number(),
{
}

} // verus!
