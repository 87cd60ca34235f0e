//! The errors of the tokenizers: a kind and a message for people.

use crate::tokenizer_base::join_text;
use vstd::prelude::*;

verus! {

/// What went wrong, with a message.
#[derive(Debug)]
pub enum TokenizerError {
    /// A text could not be encoded.
    EncodingError { message: String },
    /// Ids could not be decoded.
    DecodingError { message: String },
    /// Training failed.
    TrainingError { message: String },
    /// A model could not be loaded.
    ModelLoadError { message: String },
    /// A model could not be saved.
    ModelSaveError { message: String },
    /// The vocabulary is not as it should be.
    VocabError { message: String },
    /// An input was refused.
    InputValidationError { message: String },
    /// A tokenizer could not be set up.
    InitializationError { message: String },
    /// A word list could not be loaded.
    LoadError { message: String },
    /// A text could not be split.
    SplitError { message: String },
    /// A stream of texts could not be read.
    InvalidIterator { message: String },
    /// An item of a stream was no text.
    InvalidInput { message: String },
    /// A pattern does not compile.
    InvalidRegex { message: String },
    /// Reading or writing failed.
    IoError { message: String },
    /// A value could not be written or read as text.
    SerializationError { message: String },
    /// The regular-expression engine failed.
    RegexError { message: String },
}

/// The words that stand before the message of each kind of error.
pub open spec fn kind_label(error: TokenizerError) -> Seq<char> {
    match error {
        TokenizerError::EncodingError { .. } => "encoding error: "@,
        TokenizerError::DecodingError { .. } => "decoding error: "@,
        TokenizerError::TrainingError { .. } => "training error: "@,
        TokenizerError::ModelLoadError { .. } => "model load error: "@,
        TokenizerError::ModelSaveError { .. } => "model save error: "@,
        TokenizerError::VocabError { .. } => "vocabulary error: "@,
        TokenizerError::InputValidationError { .. } => "input validation error: "@,
        TokenizerError::InitializationError { .. } => "initialization error: "@,
        TokenizerError::LoadError { .. } => "load error: "@,
        TokenizerError::SplitError { .. } => "split error: "@,
        TokenizerError::InvalidIterator { .. } => "invalid iterator: "@,
        TokenizerError::InvalidInput { .. } => "invalid input: "@,
        TokenizerError::InvalidRegex { .. } => "invalid regular expression: "@,
        TokenizerError::IoError { .. } => "I/O error: "@,
        TokenizerError::SerializationError { .. } => "serialization error: "@,
        TokenizerError::RegexError { .. } => "regular expression error: "@,
    }
}

impl TokenizerError {
    /// The message of the error, as a specification.
    pub open spec fn spec_message(self) -> Seq<char> {
        match self {
            TokenizerError::EncodingError { message } => message@,
            TokenizerError::DecodingError { message } => message@,
            TokenizerError::TrainingError { message } => message@,
            TokenizerError::ModelLoadError { message } => message@,
            TokenizerError::ModelSaveError { message } => message@,
            TokenizerError::VocabError { message } => message@,
            TokenizerError::InputValidationError { message } => message@,
            TokenizerError::InitializationError { message } => message@,
            TokenizerError::LoadError { message } => message@,
            TokenizerError::SplitError { message } => message@,
            TokenizerError::InvalidIterator { message } => message@,
            TokenizerError::InvalidInput { message } => message@,
            TokenizerError::InvalidRegex { message } => message@,
            TokenizerError::IoError { message } => message@,
            TokenizerError::SerializationError { message } => message@,
            TokenizerError::RegexError { message } => message@,
        }
    }

    /// The message of the error.
    pub fn message(&self) -> (message: &String)
        ensures
            message@ == self.spec_message(),
    {
        match self {
            TokenizerError::EncodingError { message } => message,
            TokenizerError::DecodingError { message } => message,
            TokenizerError::TrainingError { message } => message,
            TokenizerError::ModelLoadError { message } => message,
            TokenizerError::ModelSaveError { message } => message,
            TokenizerError::VocabError { message } => message,
            TokenizerError::InputValidationError { message } => message,
            TokenizerError::InitializationError { message } => message,
            TokenizerError::LoadError { message } => message,
            TokenizerError::SplitError { message } => message,
            TokenizerError::InvalidIterator { message } => message,
            TokenizerError::InvalidInput { message } => message,
            TokenizerError::InvalidRegex { message } => message,
            TokenizerError::IoError { message } => message,
            TokenizerError::SerializationError { message } => message,
            TokenizerError::RegexError { message } => message,
        }
    }

    /// The error as one line of text: the kind, then the message.
    pub fn to_text(&self) -> (text: String)
        ensures
            text@ == kind_label(*self) + self.spec_message(),
    {
        let label = match self {
            TokenizerError::EncodingError { .. } => "encoding error: ",
            TokenizerError::DecodingError { .. } => "decoding error: ",
            TokenizerError::TrainingError { .. } => "training error: ",
            TokenizerError::ModelLoadError { .. } => "model load error: ",
            TokenizerError::ModelSaveError { .. } => "model save error: ",
            TokenizerError::VocabError { .. } => "vocabulary error: ",
            TokenizerError::InputValidationError { .. } => "input validation error: ",
            TokenizerError::InitializationError { .. } => "initialization error: ",
            TokenizerError::LoadError { .. } => "load error: ",
            TokenizerError::SplitError { .. } => "split error: ",
            TokenizerError::InvalidIterator { .. } => "invalid iterator: ",
            TokenizerError::InvalidInput { .. } => "invalid input: ",
            TokenizerError::InvalidRegex { .. } => "invalid regular expression: ",
            TokenizerError::IoError { .. } => "I/O error: ",
            TokenizerError::SerializationError { .. } => "serialization error: ",
            TokenizerError::RegexError { .. } => "regular expression error: ",
        };
        join_text(label, self.message().as_str())
    }
}

/// An encoding error with the given message.
pub fn encoding_error(message: String) -> (error: TokenizerError)
    ensures
        error == (TokenizerError::EncodingError { message }),
{
    TokenizerError::EncodingError { message }
}

/// A decoding error with the given message.
pub fn decoding_error(message: String) -> (error: TokenizerError)
    ensures
        error == (TokenizerError::DecodingError { message }),
{
    TokenizerError::DecodingError { message }
}

/// A training error with the given message.
pub fn training_error(message: String) -> (error: TokenizerError)
    ensures
        error == (TokenizerError::TrainingError { message }),
{
    TokenizerError::TrainingError { message }
}

/// A model load error with the given message.
pub fn model_load_error(message: String) -> (error: TokenizerError)
    ensures
        error == (TokenizerError::ModelLoadError { message }),
{
    TokenizerError::ModelLoadError { message }
}

/// A model save error with the given message.
pub fn model_save_error(message: String) -> (error: TokenizerError)
    ensures
        error == (TokenizerError::ModelSaveError { message }),
{
    TokenizerError::ModelSaveError { message }
}

/// A vocabulary error with the given message.
pub fn vocab_error(message: String) -> (error: TokenizerError)
    ensures
        error == (TokenizerError::VocabError { message }),
{
    TokenizerError::VocabError { message }
}

/// An input validation error with the given message.
pub fn input_validation_error(message: String) -> (error: TokenizerError)
    ensures
        error == (TokenizerError::InputValidationError { message }),
{
    TokenizerError::InputValidationError { message }
}

} // verus!
