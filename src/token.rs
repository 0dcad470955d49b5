use vstd::prelude::*;

verus! {

/// Inclusive `(starts at, ends at)` token indexes.
pub type LRange = (usize, usize);

/// `(starts at, ends at)` character positions.
pub type PositionRange = (usize, usize);

/// Classification given to every text token when a line is created.
#[derive(Clone, Copy, Debug, PartialEq, Eq, Structural)]
pub enum TextTag {
    /// Natural number like `0`, `1200`, `0004`
    NATN,
    /// English sentence punctuation symbols.
    /// `,`, `.`, `!`, `;`, `:`, `?`, `'`, `"`
    PUNC,
    /// Any other symbol or emoji
    SYMB,
    /// A combination of unicode whitespaces
    SPACE,
    /// A word as identified by unicode word recognition rules.
    ///
    /// For example: `yello`, `Paris`, `don't`, `should've`
    WORD,
}

#[derive(Debug)]
pub enum LToken {
    Text(String, TextTag),
    /// Placeholder for content that is not text.
    Value,
}

/// The text a token contributes to its line; a value token contributes nothing.
pub open spec fn token_text(token: LToken) -> Seq<char> {
    match token {
        LToken::Text(s, _) => s@,
        LToken::Value => Seq::empty(),
    }
}

/// A token with its index in the line and its character span in the input.
#[derive(Debug)]
pub struct LLToken {
    pub token_idx: usize,
    /// token span position (not token index)
    pub pos_starts_at: usize,
    /// token span position (not token index)
    pub pos_ends_at: usize,
    pub token: LToken,
}

impl LLToken {
    /// Get a reference to the token itself.
    pub fn get_token(&self) -> (r: &LToken)
        ensures
            *r == self.token,
    {
        &self.token
    }
}

} // verus!
