use vstd::prelude::*;

verus! {

/// Everything that can go wrong while reading a configuration or recoloring
/// a target. Each variant carries a human-readable message.
#[derive(Debug)]
pub enum TranError {
    /// The configuration text breaks the grammar or its semantic rules.
    ConfigError(String),
    /// A file could not be read, or its contents are structurally broken.
    FileReadError(String),
    /// A target path does not name a regular file.
    FileNotFoundError(String),
    /// The configuration could not be persisted.
    WritingConfigError(String),
    /// A PNG-specific invariant does not hold.
    PngFormatError(String),
    /// The input is recognized but deliberately not handled.
    UnsupportedError(String),
}

/// The variant of a [`TranError`], without its message.
#[derive(Clone, Copy, Debug, PartialEq, Eq, Structural)]
pub enum ErrorKind {
    Config,
    FileRead,
    FileNotFound,
    WritingConfig,
    PngFormat,
    Unsupported,
}

impl TranError {
    /// The variant of this error.
    pub open spec fn spec_kind(&self) -> ErrorKind {
        match self {
            TranError::ConfigError(_) => ErrorKind::Config,
            TranError::FileReadError(_) => ErrorKind::FileRead,
            TranError::FileNotFoundError(_) => ErrorKind::FileNotFound,
            TranError::WritingConfigError(_) => ErrorKind::WritingConfig,
            TranError::PngFormatError(_) => ErrorKind::PngFormat,
            TranError::UnsupportedError(_) => ErrorKind::Unsupported,
        }
    }

    /// The message carried by this error.
    pub open spec fn detail(&self) -> Seq<char> {
        match self {
            TranError::ConfigError(m) => m@,
            TranError::FileReadError(m) => m@,
            TranError::FileNotFoundError(m) => m@,
            TranError::WritingConfigError(m) => m@,
            TranError::PngFormatError(m) => m@,
            TranError::UnsupportedError(m) => m@,
        }
    }

    /// The text shown to the user: a fixed lead-in per variant, then the
    /// message.
    pub open spec fn rendered(&self) -> Seq<char> {
        match self {
            TranError::ConfigError(m) => "Error reading config: "@ + m@,
            TranError::FileReadError(m) => "Error reading file "@ + m@,
            TranError::FileNotFoundError(m) => "Could not find file "@ + m@,
            TranError::WritingConfigError(m) => "Could not write config file "@ + m@,
            TranError::PngFormatError(m) => "Error reading png file: "@ + m@,
            TranError::UnsupportedError(m) => m@,
        }
    }

    /// The variant of this error.
    #[verifier::when_used_as_spec(spec_kind)]
    pub fn kind(&self) -> (k: ErrorKind)
        ensures
            k == self.spec_kind(),
    {
        match self {
            TranError::ConfigError(_) => ErrorKind::Config,
            TranError::FileReadError(_) => ErrorKind::FileRead,
            TranError::FileNotFoundError(_) => ErrorKind::FileNotFound,
            TranError::WritingConfigError(_) => ErrorKind::WritingConfig,
            TranError::PngFormatError(_) => ErrorKind::PngFormat,
            TranError::UnsupportedError(_) => ErrorKind::Unsupported,
        }
    }

    /// Renders the error for the user.
    pub fn to_string(&self) -> (text: String)
        ensures
            text@ == self.rendered(),
    {
        match self {
            TranError::ConfigError(m) => lead_in("Error reading config: ", m),
            TranError::FileReadError(m) => lead_in("Error reading file ", m),
            TranError::FileNotFoundError(m) => lead_in("Could not find file ", m),
            TranError::WritingConfigError(m) => lead_in("Could not write config file ", m),
            TranError::PngFormatError(m) => lead_in("Error reading png file: ", m),
            TranError::UnsupportedError(m) => m.clone(),
        }
    }
}

/// `head` followed by `tail`.
fn lead_in(head: &str, tail: &String) -> (text: String)
    ensures
        text@ == head@ + tail@,
{
    let mut text = String::from_str(head);
    text.append(tail.as_str());
    text
}

/// A message made of three parts: fixed text around a quoted fragment.
pub(crate) fn message3(head: &str, middle: &str, tail: &str) -> (text: String)
    ensures
        text@ == head@ + middle@ + tail@,
{
    let mut text = String::from_str(head);
    text.append(middle);
    text.append(tail);
    text
}

} // verus!
