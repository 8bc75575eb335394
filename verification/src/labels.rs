use vstd::prelude::*;
use vstd::std_specs::cmp::PartialEqSpecImpl;

verus! {

/// The label under which a file is shown.
#[derive(Debug)]
pub struct FileLabel(String);

/// The label of a limit (the name of a data column).
#[derive(Debug)]
pub struct LimitLabel(String);

impl Clone for FileLabel {
    fn clone(&self) -> (r: Self)
        ensures
            r == *self,
    {
        FileLabel(self.0.clone())
    }
}

impl Clone for LimitLabel {
    fn clone(&self) -> (r: Self)
        ensures
            r == *self,
    {
        LimitLabel(self.0.clone())
    }
}

impl View for FileLabel {
    type V = Seq<char>;

    closed spec fn view(&self) -> Seq<char> {
        self.0@
    }
}

impl View for LimitLabel {
    type V = Seq<char>;

    closed spec fn view(&self) -> Seq<char> {
        self.0@
    }
}

impl PartialEq for FileLabel {
    fn eq(&self, other: &Self) -> (r: bool) {
        self.0 == other.0
    }
}

impl PartialEqSpecImpl for FileLabel {
    open spec fn obeys_eq_spec() -> bool {
        true
    }

    open spec fn eq_spec(&self, other: &Self) -> bool {
        self@ == other@
    }
}

impl PartialEq for LimitLabel {
    fn eq(&self, other: &Self) -> (r: bool) {
        self.0 == other.0
    }
}

impl PartialEqSpecImpl for LimitLabel {
    open spec fn obeys_eq_spec() -> bool {
        true
    }

    open spec fn eq_spec(&self, other: &Self) -> bool {
        self@ == other@
    }
}

impl From<String> for FileLabel {
    fn from(value: String) -> (r: Self) {
        FileLabel(value)
    }
}

impl vstd::std_specs::convert::FromSpecImpl<String> for FileLabel {
    open spec fn obeys_from_spec() -> bool {
        true
    }

    open spec fn from_spec(v: String) -> Self {
        FileLabel::from_string_spec(v)
    }
}

impl From<String> for LimitLabel {
    fn from(value: String) -> (r: Self) {
        LimitLabel(value)
    }
}

impl vstd::std_specs::convert::FromSpecImpl<String> for LimitLabel {
    open spec fn obeys_from_spec() -> bool {
        true
    }

    open spec fn from_spec(v: String) -> Self {
        LimitLabel::from_string_spec(v)
    }
}

impl FileLabel {
    /// The label that holds the given text.
    pub closed spec fn from_string_spec(s: String) -> Self {
        FileLabel(s)
    }

    pub broadcast proof fn lemma_from_string_view(s: String)
        ensures
            #[trigger] FileLabel::from_string_spec(s)@ == s@,
    {
    }

    pub fn as_str(&self) -> (r: &str)
        ensures
            r@ == self@,
    {
        self.0.as_str()
    }

    /// Gives the text of the label for editing in place.
    pub fn get_mut(&mut self) -> (r: &mut String)
        ensures
            r@ == old(self)@,
            final(self)@ == final(r)@,
    {
        &mut self.0
    }
}

impl LimitLabel {
    /// The label that holds the given text.
    pub closed spec fn from_string_spec(s: String) -> Self {
        LimitLabel(s)
    }

    pub broadcast proof fn lemma_from_string_view(s: String)
        ensures
            #[trigger] LimitLabel::from_string_spec(s)@ == s@,
    {
    }

    pub fn as_str(&self) -> (r: &str)
        ensures
            r@ == self@,
    {
        self.0.as_str()
    }

    /// Gives the text of the label for editing in place.
    pub fn get_mut(&mut self) -> (r: &mut String)
        ensures
            r@ == old(self)@,
            final(self)@ == final(r)@,
    {
        &mut self.0
    }
}

} // verus!
