//! GraphQL responses.
use vstd::prelude::*;

use crate::text::same_text;
use crate::value::{Value, ValueView};

verus! {

/// A value of a response.
#[derive(Debug)]
pub enum ResponseValue {
    Null,
    Scalar(Value),
    List(Vec<ResponseValue>),
    Object(Vec<ResponseField>),
}

/// A named value of a response.
#[derive(Debug)]
pub struct ResponseField {
    pub name: String,
    pub value: ResponseValue,
}

/// What a value of a response holds.
pub enum ResponseView {
    Null,
    Scalar(ValueView),
    List(Seq<ResponseView>),
    Object(Seq<(Seq<char>, ResponseView)>),
}

impl ResponseValue {
    /// What the value holds.
    pub open spec fn view(&self) -> ResponseView
        decreases self,
    {
        match self {
            ResponseValue::Null => ResponseView::Null,
            ResponseValue::Scalar(value) => ResponseView::Scalar(value@),
            ResponseValue::List(items) => ResponseView::List(
                Seq::new(
                    items@.len(),
                    |i: int|
                        if 0 <= i < items@.len() {
                            items@[i].view()
                        } else {
                            ResponseView::Null
                        },
                ),
            ),
            ResponseValue::Object(fields) => ResponseView::Object(
                Seq::new(
                    fields@.len(),
                    |i: int|
                        if 0 <= i < fields@.len() {
                            (fields@[i].name@, fields@[i].value.view())
                        } else {
                            (Seq::empty(), ResponseView::Null)
                        },
                ),
            ),
        }
    }

    /// Tells whether two values hold the same.
    pub fn same(&self, other: &ResponseValue) -> (result: bool)
        ensures
            result == (self.view() == other.view()),
        decreases self,
    {
        match (self, other) {
            (ResponseValue::Null, ResponseValue::Null) => true,
            (ResponseValue::Scalar(left), ResponseValue::Scalar(right)) => *left == *right,
            (ResponseValue::List(left), ResponseValue::List(right)) => {
                let ghost l = self.view()->List_0;
                let ghost r = other.view()->List_0;
                if left.len() != right.len() {
                    assert(l.len() != r.len());
                    return false;
                }
                let mut i: usize = 0;
                while i < left.len()
                    invariant
                        i <= left.len(),
                        left.len() == right.len(),
                        self is List && self->List_0 == *left,
                        l == self.view()->List_0,
                        r == other.view()->List_0,
                        other is List && other->List_0 == *right,
                        forall|j: int| 0 <= j < i ==> l[j] == r[j],
                    decreases left.len() - i,
                {
                    assert(l[i as int] == left@[i as int].view());
                    assert(r[i as int] == right@[i as int].view());
                    assert(decreases_to!(self => left));
                    assert(decreases_to!(left => left@[i as int]));
                    if !left[i].same(&right[i]) {
                        return false;
                    }
                    i += 1;
                }
                assert(l =~= r);
                true
            },
            (ResponseValue::Object(left), ResponseValue::Object(right)) => {
                let ghost l = self.view()->Object_0;
                let ghost r = other.view()->Object_0;
                if left.len() != right.len() {
                    assert(l.len() != r.len());
                    return false;
                }
                let mut i: usize = 0;
                while i < left.len()
                    invariant
                        i <= left.len(),
                        left.len() == right.len(),
                        self is Object && self->Object_0 == *left,
                        l == self.view()->Object_0,
                        r == other.view()->Object_0,
                        other is Object && other->Object_0 == *right,
                        forall|j: int| 0 <= j < i ==> l[j] == r[j],
                    decreases left.len() - i,
                {
                    assert(l[i as int] == (
                        left@[i as int].name@,
                        left@[i as int].value.view(),
                    ));
                    assert(r[i as int] == (
                        right@[i as int].name@,
                        right@[i as int].value.view(),
                    ));
                    assert(decreases_to!(self => left));
                    assert(decreases_to!(left => left@[i as int]));
                    assert(decreases_to!(left@[i as int] => left@[i as int].value));
                    if !same_text(left[i].name.as_str(), right[i].name.as_str()) {
                        return false;
                    }
                    if !left[i].value.same(&right[i].value) {
                        return false;
                    }
                    i += 1;
                }
                assert(l =~= r);
                true
            },
            _ => false,
        }
    }
}

/// A GraphQL response.
#[derive(Debug)]
pub struct GraphqlResponse {
    pub data: ResponseValue,
}

impl GraphqlResponse {
    /// What the response holds.
    pub open spec fn view(&self) -> ResponseView {
        self.data.view()
    }

    /// A response with the given data.
    pub fn new(data: ResponseValue) -> (result: Self)
        ensures
            result.view() == data.view(),
    {
        GraphqlResponse { data }
    }

    /// The items of the one list that the response is made of, if it is.
    pub fn root_list(&self) -> (items: Option<&Vec<ResponseValue>>)
        ensures
            match items {
                Some(items) => self.data is Object && self.data->Object_0@.len() == 1
                    && self.data->Object_0@[0].value == ResponseValue::List(*items),
                None => !(self.data is Object && self.data->Object_0@.len() == 1
                    && self.data->Object_0@[0].value is List),
            },
    {
        match &self.data {
            ResponseValue::Object(fields) => if fields.len() == 1 {
                match &fields[0].value {
                    ResponseValue::List(items) => Some(items),
                    _ => None,
                }
            } else {
                None
            },
            _ => None,
        }
    }
}

} // verus!
