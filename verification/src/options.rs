use vstd::prelude::*;

verus! {

/// Indentation settings: the width of one level and whether levels are
/// written as spaces or as a single tab.
#[derive(Clone, Copy, Debug, PartialEq, Eq)]
pub struct FormatOptions {
    pub(crate) tab_size: u8,
    pub(crate) insert_spaces: bool,
}

/// The rejected tab size of a failed [`FormatOptions::new`].
#[derive(Clone, Copy, Debug, PartialEq, Eq)]
pub struct InvalidTabSize(pub u32);

impl FormatOptions {
    /// The tab size these options were built with.
    pub closed spec fn spec_tab_size(self) -> int {
        self.tab_size as int
    }

    /// Whether one indentation level is written as spaces.
    pub closed spec fn spec_insert_spaces(self) -> bool {
        self.insert_spaces
    }

    /// Every value built by [`FormatOptions::new`] has a tab size in `1..=16`.
    pub open spec fn wf(self) -> bool {
        1 <= self.spec_tab_size() <= 16
    }

    /// Width of one indentation level.
    pub fn tab_size(&self) -> (result: u8)
        ensures
            result == self.spec_tab_size(),
    {
        self.tab_size
    }

    /// Whether one indentation level is written as spaces.
    pub fn insert_spaces(&self) -> (result: bool)
        ensures
            result == self.spec_insert_spaces(),
    {
        self.insert_spaces
    }

    /// Constructs indentation options; the tab size must lie in `1..=16`.
    pub fn new(tab_size: u32, insert_spaces: bool) -> (result: Result<Self, InvalidTabSize>)
        ensures
            1 <= tab_size <= 16 <==> result is Ok,
            result matches Ok(options) ==> options.wf() && options.spec_tab_size() == tab_size
                && options.spec_insert_spaces() == insert_spaces,
            result matches Err(e) ==> e == InvalidTabSize(tab_size),
    {
        if !(1 <= tab_size && tab_size <= 16) {
            return Err(InvalidTabSize(tab_size));
        }
        Ok(FormatOptions { tab_size: tab_size as u8, insert_spaces })
    }
}

/// Why a document was left as it is.
#[derive(Clone, Copy, Debug, PartialEq, Eq)]
pub enum SkipReason {
    InputLimit,
    OutputLimit,
    NestingLimit,
    UnsupportedLiteral,
    Continuation,
    LexicalDiagnostics,
    MismatchedDelimiter,
    UnclosedDelimiter,
    UncertainProtectedRange,
    TokenMismatch,
    ParseDiagnostics,
}

/// The result of formatting a document.
#[derive(Debug, PartialEq, Eq)]
pub enum FormatOutcome {
    Changed(String),
    Unchanged,
    Skipped(SkipReason),
}

} // verus!
