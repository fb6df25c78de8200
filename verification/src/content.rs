use vstd::prelude::*;
use vstd::std_specs::convert::FromSpec;

verus! {

/// A piece of text handed over for formatting.
pub struct Content<'lt> {
    string: &'lt str,
}

impl<'lt> View for Content<'lt> {
    type V = Seq<char>;

    closed spec fn view(&self) -> Seq<char> {
        self.string@
    }
}

impl Content<'static> {
    /// Hands the text out again.
    pub fn extract(self) -> (text: &'static str)
        ensures
            text@ == self@,
    {
        self.string
    }
}

impl<'lt> From<&'lt str> for Content<'lt> {
    fn from(value: &'lt str) -> (content: Self) {
        Self { string: value }
    }
}

impl<'lt> vstd::std_specs::convert::FromSpecImpl<&'lt str> for Content<'lt> {
    open spec fn obeys_from_spec() -> bool {
        true
    }

    closed spec fn from_spec(value: &'lt str) -> Self {
        Self { string: value }
    }
}

/// A content made from a text holds that text.
pub proof fn lemma_content_from(value: &str)
    ensures
        <Content as FromSpec<&str>>::from_spec(value)@ == value@,
{
}

} // verus!
