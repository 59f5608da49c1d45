//! Tokenizer choice and token counting.

use vstd::prelude::*;

verus! {

/// The BPE encodings that token counts can be taken with.
#[derive(Clone, Copy, Debug, PartialEq, Eq, Structural)]
pub enum TokenizerChoice {
    /// For GPT-4o, GPT-4 Turbo, and o1 models.
    O200kBase,
    /// For ChatGPT models, text-embedding-ada-002. (Default)
    Cl100k,
    /// For Code models, text-davinci-002, text-davinci-003.
    P50kBase,
    /// For Edit models like text-davinci-edit-001.
    P50kEdit,
    /// For GPT-3 models like davinci.
    R50kBase,
}

/// Number of tokenizer choices.
pub const TOKENIZER_COUNT: usize = 5;

impl TokenizerChoice {
    /// Position of the choice in the cycle `O200kBase, Cl100k, P50kBase,
    /// P50kEdit, R50kBase`.
    pub open spec fn index(self) -> nat {
        match self {
            TokenizerChoice::O200kBase => 0,
            TokenizerChoice::Cl100k => 1,
            TokenizerChoice::P50kBase => 2,
            TokenizerChoice::P50kEdit => 3,
            TokenizerChoice::R50kBase => 4,
        }
    }

    /// The choice at position `i` of the cycle.
    pub open spec fn at(i: nat) -> TokenizerChoice {
        if i == 0 {
            TokenizerChoice::O200kBase
        } else if i == 1 {
            TokenizerChoice::Cl100k
        } else if i == 2 {
            TokenizerChoice::P50kBase
        } else if i == 3 {
            TokenizerChoice::P50kEdit
        } else {
            TokenizerChoice::R50kBase
        }
    }

    fn position(&self) -> (r: usize)
        ensures
            r == self.index(),
    {
        match self {
            TokenizerChoice::O200kBase => 0,
            TokenizerChoice::Cl100k => 1,
            TokenizerChoice::P50kBase => 2,
            TokenizerChoice::P50kEdit => 3,
            TokenizerChoice::R50kBase => 4,
        }
    }

    fn from_position(i: usize) -> (r: TokenizerChoice)
        requires
            i < TOKENIZER_COUNT,
        ensures
            r == Self::at(i as nat),
            r.index() == i,
    {
        if i == 0 {
            TokenizerChoice::O200kBase
        } else if i == 1 {
            TokenizerChoice::Cl100k
        } else if i == 2 {
            TokenizerChoice::P50kBase
        } else if i == 3 {
            TokenizerChoice::P50kEdit
        } else {
            TokenizerChoice::R50kBase
        }
    }

    /// The next choice in the cycle, wrapping from the last to the first.
    pub fn next(&self) -> (r: TokenizerChoice)
        ensures
            r.index() == (self.index() + 1) % 5,
    {
        let pos = self.position();
        Self::from_position((pos + 1) % TOKENIZER_COUNT)
    }

    /// The previous choice in the cycle, wrapping from the first to the last.
    pub fn previous(&self) -> (r: TokenizerChoice)
        ensures
            r.index() == (self.index() + 4) % 5,
    {
        let pos = self.position();
        Self::from_position((pos + TOKENIZER_COUNT - 1) % TOKENIZER_COUNT)
    }

    /// The encoding's name, e.g. `cl100k`.
    pub fn as_str(&self) -> (r: &'static str)
        ensures
            r@ == self.name(),
    {
        match self {
            TokenizerChoice::O200kBase => "o200k_base",
            TokenizerChoice::Cl100k => "cl100k",
            TokenizerChoice::P50kBase => "p50k_base",
            TokenizerChoice::P50kEdit => "p50k_edit",
            TokenizerChoice::R50kBase => "r50k_base",
        }
    }

    pub open spec fn name(self) -> Seq<char> {
        match self {
            TokenizerChoice::O200kBase => "o200k_base"@,
            TokenizerChoice::Cl100k => "cl100k"@,
            TokenizerChoice::P50kBase => "p50k_base"@,
            TokenizerChoice::P50kEdit => "p50k_edit"@,
            TokenizerChoice::R50kBase => "r50k_base"@,
        }
    }
}

impl Default for TokenizerChoice {
    fn default() -> (r: TokenizerChoice)
        ensures
            r == TokenizerChoice::Cl100k,
    {
        TokenizerChoice::Cl100k
    }
}

/// The models an encoding is used for.
pub fn get_model_info(tokenizer_name: TokenizerChoice) -> (r: &'static str)
    ensures
        r@ == model_info(tokenizer_name),
{
    match tokenizer_name {
        TokenizerChoice::O200kBase => "GPT-4o models, o1 models",
        TokenizerChoice::Cl100k => "ChatGPT models, text-embedding-ada-002",
        TokenizerChoice::P50kBase => "Code models, text-davinci-002, text-davinci-003",
        TokenizerChoice::P50kEdit => "Edit models like text-davinci-edit-001, code-davinci-edit-001",
        TokenizerChoice::R50kBase => "GPT-3 models like davinci",
    }
}

pub open spec fn model_info(c: TokenizerChoice) -> Seq<char> {
    match c {
        TokenizerChoice::O200kBase => "GPT-4o models, o1 models"@,
        TokenizerChoice::Cl100k => "ChatGPT models, text-embedding-ada-002"@,
        TokenizerChoice::P50kBase => "Code models, text-davinci-002, text-davinci-003"@,
        TokenizerChoice::P50kEdit => "Edit models like text-davinci-edit-001, code-davinci-edit-001"@,
        TokenizerChoice::R50kBase => "GPT-3 models like davinci"@,
    }
}

/// The number of tokens the BPE encoding at position `encoding` of the
/// tokenizer cycle splits `text` into (special tokens allowed), or nothing
/// when the encoder reports an error for this text.
pub uninterp spec fn bpe_token_count(encoding: nat, text: Seq<char>) -> Option<usize>;

/// Relies on `tiktoken_rs::bpe_for_tokenizer`, which loads the encoding, and
/// on `CoreBPE::encode` with every special token allowed, which yields the
/// tokens of `text` or an error (from its regular expression engine). The
/// outcome depends on the encoding and the text alone.
#[verifier::external_body]
fn bpe_count(text: &str, tokenizer: TokenizerChoice) -> (r: Option<usize>)
    ensures
        r == bpe_token_count(tokenizer.index(), text@),
{
    let t = match tokenizer {
        TokenizerChoice::O200kBase => tiktoken_rs::tokenizer::Tokenizer::O200kBase,
        TokenizerChoice::Cl100k => tiktoken_rs::tokenizer::Tokenizer::Cl100kBase,
        TokenizerChoice::P50kBase => tiktoken_rs::tokenizer::Tokenizer::P50kBase,
        TokenizerChoice::P50kEdit => tiktoken_rs::tokenizer::Tokenizer::P50kEdit,
        TokenizerChoice::R50kBase => tiktoken_rs::tokenizer::Tokenizer::R50kBase,
    };
    match tiktoken_rs::bpe_for_tokenizer(t) {
        Ok(bpe) => match bpe.encode(text, &bpe.special_tokens()) {
            Ok((tokens, _)) => Some(tokens.len()),
            Err(_) => None,
        },
        Err(_) => None,
    }
}

/// Why a token count could not be taken.
#[derive(Clone, Copy, Debug, PartialEq, Eq, Structural)]
pub enum TokenError {
    /// The encoder could not tokenize the text.
    EncodingFailed,
}

/// The outcome of counting: the count, or the encoder's failure.
pub open spec fn count_outcome(c: Option<usize>) -> Result<usize, TokenError> {
    match c {
        Some(n) => Ok(n),
        None => Err(TokenError::EncodingFailed),
    }
}

/// Counts the tokens of `text` with the chosen encoding.
pub fn count_tokens(text: &str, tokenizer_name: TokenizerChoice) -> (r: Result<usize, TokenError>)
    ensures
        r == count_outcome(bpe_token_count(tokenizer_name.index(), text@)),
{
    match bpe_count(text, tokenizer_name) {
        Some(n) => Ok(n),
        None => Err(TokenError::EncodingFailed),
    }
}

} // verus!
