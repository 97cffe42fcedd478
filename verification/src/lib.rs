pub mod component;
pub mod conditions;
pub mod text;
pub mod value;

use vstd::prelude::*;

verus! {

/// The opaque input a condition is evaluated against.  Its construction and
/// contents belong to the surrounding system; conditions treat it as a black
/// box.
pub struct Event {
    text: String,
}

impl View for Event {
    type V = Seq<char>;

    closed spec fn view(&self) -> Seq<char> {
        self.text@
    }
}

impl Event {
    /// The text the event carries.
    pub fn text(&self) -> (r: &String)
        ensures
            r@ == self@,
    {
        &self.text
    }
}

impl From<String> for Event {
    fn from(text: String) -> (r: Event) {
        Event { text }
    }
}

impl vstd::std_specs::convert::FromSpecImpl<String> for Event {
    open spec fn obeys_from_spec() -> bool {
        true
    }

    closed spec fn from_spec(text: String) -> Event {
        Event { text }
    }
}

} // verus!
