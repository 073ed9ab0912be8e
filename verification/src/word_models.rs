use vstd::prelude::*;

verus! {

/// A model that proposes single words for the typed characters.
pub trait WordModel: Sized {
    /// A model for the characters `x`.
    fn new(x: &[char]) -> Self;

    /// The proposed words, each with the number of tokens it takes.
    fn get_words(&self) -> Vec<(i32, &str)>;

    /// Take in one more character.
    fn append(self, c: char);
}

/// A word model that is not written yet: it provides no implementation of `WordModel`.
pub struct VKey {
}

} // verus!
