use vstd::prelude::*;

pub mod encoded_word;
pub mod laws;
pub mod list;
pub mod stream;
pub mod text;

pub use stream::MessageStream;

verus! {

/// The value of a header field that holds a comma-separated list.
pub enum HeaderValue {
    Empty,
    Text(String),
    TextList(Vec<String>),
}

/// What a `HeaderValue` holds, as text.
pub enum ValueModel {
    Empty,
    Text(Seq<char>),
    TextList(Seq<Seq<char>>),
}

impl View for HeaderValue {
    type V = ValueModel;

    open spec fn view(&self) -> ValueModel {
        match self {
            HeaderValue::Empty => ValueModel::Empty,
            HeaderValue::Text(s) => ValueModel::Text(s@),
            HeaderValue::TextList(l) => ValueModel::TextList(l@.map_values(|s: String| s@)),
        }
    }
}

/// The value that a list of entries makes: none is `Empty`, one is that
/// entry's text, more are the list itself.
pub open spec fn shape(list: Seq<Seq<char>>) -> ValueModel {
    if list.len() == 0 {
        ValueModel::Empty
    } else if list.len() == 1 {
        ValueModel::Text(list[0])
    } else {
        ValueModel::TextList(list)
    }
}

} // verus!
