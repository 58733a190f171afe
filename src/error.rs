use vstd::prelude::*;

verus! {

/// The field of the pair-grammar builder's output that ended too early.
#[derive(Debug, Clone, Copy, PartialEq, Eq, Structural)]
pub enum InputField {
    AlphabetSize,
    AlphabetCharacter,
    PairLeft,
    PairRight,
    SequenceSymbol,
}

#[derive(Debug)]
pub enum RReaderError {
    /// A read or write on the underlying stream failed.
    IO(std::io::Error),
    NoInputFile,
    /// An input stream ended before the named field was complete.
    MissingInput(InputField),
}

/// Relies on `std::io::Error::from`: an error of kind `InvalidData`.
#[verifier::external_body]
pub(crate) fn invalid_data() -> std::io::Error {
    std::io::Error::from(std::io::ErrorKind::InvalidData)
}

impl InputField {
    pub open spec fn name(self) -> Seq<char> {
        match self {
            InputField::AlphabetSize => "Alphabet size"@,
            InputField::AlphabetCharacter => "Alphabet character"@,
            InputField::PairLeft => "Pair left component"@,
            InputField::PairRight => "Pair right component"@,
            InputField::SequenceSymbol => "Sequence symbol"@,
        }
    }

    /// A short description of the field.
    pub fn describe(&self) -> (r: &'static str)
        ensures
            r@ == self.name(),
    {
        match self {
            InputField::AlphabetSize => "Alphabet size",
            InputField::AlphabetCharacter => "Alphabet character",
            InputField::PairLeft => "Pair left component",
            InputField::PairRight => "Pair right component",
            InputField::SequenceSymbol => "Sequence symbol",
        }
    }
}

} // verus!
