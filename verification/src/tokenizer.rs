//! The ways in which the tokens of a text are estimated.
use vstd::prelude::*;
use vstd::string::StringExecFns;
use crate::text::same_text;

verus! {

/// A way to estimate how many tokens a text has.
#[derive(Debug, Clone, Copy, PartialEq, Eq, Structural)]
pub enum TokenEstimator {
    CharDiv4,
    Cl100k,
    Llama2,
    SentencePiece,
}

impl Default for TokenEstimator {
    fn default() -> (e: Self)
        ensures
            e == TokenEstimator::CharDiv4,
    {
        TokenEstimator::CharDiv4
    }
}

/// The identifier of `estimator`, as it is stored and parsed.
pub open spec fn identifier(estimator: TokenEstimator) -> Seq<char> {
    match estimator {
        TokenEstimator::CharDiv4 => "CharDiv4"@,
        TokenEstimator::Cl100k => "Cl100k"@,
        TokenEstimator::Llama2 => "Llama2"@,
        TokenEstimator::SentencePiece => "SentencePiece"@,
    }
}

/// The name of `estimator`, as it is shown.
pub open spec fn display_name(estimator: TokenEstimator) -> Seq<char> {
    match estimator {
        TokenEstimator::CharDiv4 => "Char/4 heuristic"@,
        TokenEstimator::Cl100k => "GPT-3/4 (cl100k)"@,
        TokenEstimator::Llama2 => "Llama2 BPE"@,
        TokenEstimator::SentencePiece => "Gemini SentencePiece"@,
    }
}

/// The estimator that `text` identifies, if any.
pub open spec fn parsed(text: Seq<char>) -> Option<TokenEstimator> {
    if text == identifier(TokenEstimator::CharDiv4) {
        Some(TokenEstimator::CharDiv4)
    } else if text == identifier(TokenEstimator::Cl100k) {
        Some(TokenEstimator::Cl100k)
    } else if text == identifier(TokenEstimator::Llama2) {
        Some(TokenEstimator::Llama2)
    } else if text == identifier(TokenEstimator::SentencePiece) {
        Some(TokenEstimator::SentencePiece)
    } else {
        None
    }
}

/// The estimate that the length of a text gives: a quarter of its
/// characters, rounded down.
pub open spec fn quarter_of_chars(text: Seq<char>) -> nat {
    text.len() / 4
}

/// The four identifiers differ, so each estimator is parsed back from its
/// own.
pub proof fn lemma_identifier_round_trip(estimator: TokenEstimator)
    ensures
        parsed(identifier(estimator)) == Some(estimator),
{
    reveal_strlit("CharDiv4");
    reveal_strlit("Cl100k");
    reveal_strlit("Llama2");
    reveal_strlit("SentencePiece");
    assert("CharDiv4"@.len() == 8);
    assert("Cl100k"@.len() == 6);
    assert("Llama2"@.len() == 6);
    assert("SentencePiece"@.len() == 13);
    assert("Cl100k"@[0] == 'C');
    assert("Llama2"@[0] == 'L');
}

impl TokenEstimator {
    /// The name under which the estimator is shown.
    pub fn name(&self) -> (n: &'static str)
        ensures
            n@ == display_name(*self),
    {
        match self {
            TokenEstimator::CharDiv4 => "Char/4 heuristic",
            TokenEstimator::Cl100k => "GPT-3/4 (cl100k)",
            TokenEstimator::Llama2 => "Llama2 BPE",
            TokenEstimator::SentencePiece => "Gemini SentencePiece",
        }
    }

    /// The identifier of the estimator.
    pub fn to_string(&self) -> (s: String)
        ensures
            s@ == identifier(*self),
    {
        match self {
            TokenEstimator::CharDiv4 => "CharDiv4".to_owned(),
            TokenEstimator::Cl100k => "Cl100k".to_owned(),
            TokenEstimator::Llama2 => "Llama2".to_owned(),
            TokenEstimator::SentencePiece => "SentencePiece".to_owned(),
        }
    }

    /// The estimator that `s` identifies; for any other text an error
    /// message that names the text.
    pub fn from_str(s: &str) -> (r: Result<TokenEstimator, String>)
        ensures
            match r {
                Ok(e) => parsed(s@) == Some(e),
                Err(message) => parsed(s@) is None && message@ == "Unknown token estimator: "@
                    + s@,
            },
    {
        if same_text(s, "CharDiv4") {
            Ok(TokenEstimator::CharDiv4)
        } else if same_text(s, "Cl100k") {
            Ok(TokenEstimator::Cl100k)
        } else if same_text(s, "Llama2") {
            Ok(TokenEstimator::Llama2)
        } else if same_text(s, "SentencePiece") {
            Ok(TokenEstimator::SentencePiece)
        } else {
            let mut message = "Unknown token estimator: ".to_owned();
            message.append(s);
            Err(message)
        }
    }

    /// Whether the estimate is the number of tokens that the cl100k encoder
    /// makes of the text, which the caller has to supply.
    pub fn uses_encoder(&self) -> (r: bool)
        ensures
            r == (*self == TokenEstimator::Cl100k),
    {
        match self {
            TokenEstimator::Cl100k => true,
            _ => false,
        }
    }

    /// The estimate for `text`. `encoded_len` is the number of tokens that
    /// the cl100k encoder makes of `text`; it is read only where
    /// `uses_encoder` holds. Every other estimator gives a quarter of the
    /// number of characters.
    pub fn estimate_tokens(&self, text: &str, encoded_len: usize) -> (n: usize)
        ensures
            n == if *self == TokenEstimator::Cl100k {
                encoded_len as nat
            } else {
                quarter_of_chars(text@)
            },
    {
        match self {
            TokenEstimator::Cl100k => encoded_len,
            _ => text.unicode_len() / 4,
        }
    }
}

impl std::str::FromStr for TokenEstimator {
    type Err = String;

    /// The estimator that `s` identifies; for any other text an error
    /// message that names the text.
    fn from_str(s: &str) -> (r: Result<Self, String>)
        ensures
            match r {
                Ok(e) => parsed(s@) == Some(e),
                Err(message) => parsed(s@) is None && message@ == "Unknown token estimator: "@
                    + s@,
            },
    {
        TokenEstimator::from_str(s)
    }
}

} // verus!
