use vstd::prelude::*;

verus! {

/// Every way in which a run can end other than cleanly.
#[derive(Debug, PartialEq, Eq, Structural, Clone, Copy)]
pub enum AntisepticError {
    SpellingMistakeFound,
    UnableToFindCWD,
    InvalidSrcPath,
    InvalidDictionaryPath,
    InvalidConfigTOML,
    InvalidPyprojectTOML,
    IncorrectConfigTOMLType,
    WalkDirIterAborts,
    CheckedFileCouldNotBeOpened,
    ConfigFileCouldNotBeOpened,
    CheckedFileIsNotUTF8,
    StringParsingFailed,
    PyprojectMissingConfig,
    MissingConfig,
    ReadingDictionaryFailed,
    IssueReadingFile,
}

impl AntisepticError {
    /// The status code that the host sees for this error: the errors are
    /// numbered from 1 in the order of their declaration.
    pub open spec fn spec_code(self) -> u64 {
        match self {
            AntisepticError::SpellingMistakeFound => 1,
            AntisepticError::UnableToFindCWD => 2,
            AntisepticError::InvalidSrcPath => 3,
            AntisepticError::InvalidDictionaryPath => 4,
            AntisepticError::InvalidConfigTOML => 5,
            AntisepticError::InvalidPyprojectTOML => 6,
            AntisepticError::IncorrectConfigTOMLType => 7,
            AntisepticError::WalkDirIterAborts => 8,
            AntisepticError::CheckedFileCouldNotBeOpened => 9,
            AntisepticError::ConfigFileCouldNotBeOpened => 10,
            AntisepticError::CheckedFileIsNotUTF8 => 11,
            AntisepticError::StringParsingFailed => 12,
            AntisepticError::PyprojectMissingConfig => 13,
            AntisepticError::MissingConfig => 14,
            AntisepticError::ReadingDictionaryFailed => 15,
            AntisepticError::IssueReadingFile => 16,
        }
    }

    /// The status code that the host sees for this error.
    pub fn code(&self) -> (r: u64)
        ensures
            r == self.spec_code(),
            1 <= r <= 16,
    {
        match self {
            AntisepticError::SpellingMistakeFound => 1,
            AntisepticError::UnableToFindCWD => 2,
            AntisepticError::InvalidSrcPath => 3,
            AntisepticError::InvalidDictionaryPath => 4,
            AntisepticError::InvalidConfigTOML => 5,
            AntisepticError::InvalidPyprojectTOML => 6,
            AntisepticError::IncorrectConfigTOMLType => 7,
            AntisepticError::WalkDirIterAborts => 8,
            AntisepticError::CheckedFileCouldNotBeOpened => 9,
            AntisepticError::ConfigFileCouldNotBeOpened => 10,
            AntisepticError::CheckedFileIsNotUTF8 => 11,
            AntisepticError::StringParsingFailed => 12,
            AntisepticError::PyprojectMissingConfig => 13,
            AntisepticError::MissingConfig => 14,
            AntisepticError::ReadingDictionaryFailed => 15,
            AntisepticError::IssueReadingFile => 16,
        }
    }
}

} // verus!
