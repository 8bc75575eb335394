use vstd::prelude::*;

verus! {

/// A text of the user interface, in each supported language.
pub struct LocalizableString {
    pub english: String,
}

/// A borrowed text of the user interface, in each supported language.
pub struct LocalizableStr<'a> {
    pub english: &'a str,
}

/// The language in which the user interface is shown.
#[derive(Clone, Copy, Debug, PartialEq, Eq, Structural)]
pub enum Language {
    English,
}

impl Default for Language {
    fn default() -> (r: Self)
        ensures
            r == Language::English,
    {
        Language::English
    }
}

impl Clone for LocalizableString {
    fn clone(&self) -> (r: Self)
        ensures
            r == *self,
    {
        LocalizableString { english: self.english.clone() }
    }
}

impl LocalizableString {
    /// Borrows the texts.
    pub fn as_str(&self) -> (r: LocalizableStr<'_>)
        ensures
            r.english@ == self.english@,
    {
        LocalizableStr { english: self.english.as_str() }
    }

    /// The text in `language`.
    pub fn localize(self, language: Language) -> (r: String)
        ensures
            r@ == self.english@,
    {
        match language {
            Language::English => self.english,
        }
    }
}

impl<'a> LocalizableStr<'a> {
    /// The text in `language`.
    pub fn localize(&self, language: Language) -> (r: &'a str)
        ensures
            r@ == self.english@,
    {
        match language {
            Language::English => self.english,
        }
    }
}

} // verus!
