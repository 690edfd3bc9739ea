use vstd::prelude::*;

verus! {

/// The error kinds the engine reports, each carrying a human-readable message.
#[derive(Debug, Clone)]
pub enum EngineError {
    Parse(String),
    Storage(String),
    Source(String),
    Command(String),
}

impl EngineError {
    /// The stable numeric code of each kind.
    pub open spec fn spec_code(&self) -> u32 {
        match self {
            EngineError::Parse(_) => 1,
            EngineError::Storage(_) => 2,
            EngineError::Source(_) => 3,
            EngineError::Command(_) => 4,
        }
    }

    /// The message an error carries.
    pub open spec fn spec_message(&self) -> Seq<char> {
        match self {
            EngineError::Parse(m) => m@,
            EngineError::Storage(m) => m@,
            EngineError::Source(m) => m@,
            EngineError::Command(m) => m@,
        }
    }

    /// The human-readable prefix of each kind.
    pub open spec fn spec_prefix(&self) -> Seq<char> {
        match self {
            EngineError::Parse(_) => "parse error: "@,
            EngineError::Storage(_) => "storage error: "@,
            EngineError::Source(_) => "source error: "@,
            EngineError::Command(_) => "command error: "@,
        }
    }

    /// Stable numeric code: Parse 1, Storage 2, Source 3, Command 4.
    pub fn code(&self) -> (c: u32)
        ensures
            c == self.spec_code(),
    {
        match self {
            EngineError::Parse(_) => 1,
            EngineError::Storage(_) => 2,
            EngineError::Source(_) => 3,
            EngineError::Command(_) => 4,
        }
    }

    /// The displayed form: the kind's prefix followed by the message.
    pub fn to_string(&self) -> (s: String)
        ensures
            s@ == self.spec_prefix() + self.spec_message(),
    {
        let (prefix, m) = match self {
            EngineError::Parse(m) => ("parse error: ", m),
            EngineError::Storage(m) => ("storage error: ", m),
            EngineError::Source(m) => ("source error: ", m),
            EngineError::Command(m) => ("command error: ", m),
        };
        let mut s = String::from_str(prefix);
        s.append(m.as_str());
        s
    }
}

} // verus!
