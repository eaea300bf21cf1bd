//! JSON values as plain data, with exact numbers.

use vstd::prelude::*;

verus! {

/// An exact binary value `mantissa * 2^exponent`: every finite `f32` and
/// `f64` is one.
#[derive(Clone, Copy, Debug, PartialEq, Eq, Structural)]
pub struct Binary {
    pub mantissa: i64,
    pub exponent: i32,
}

/// A JSON number: a non-negative integer, a negative integer, or a float.
#[derive(Clone, Copy, Debug, PartialEq, Eq, Structural)]
pub enum Number {
    PosInt(u64),
    NegInt(i64),
    Float(Binary),
}

/// A JSON value. Object members keep their order.
#[derive(Debug, PartialEq)]
pub enum Json {
    Null,
    Bool(bool),
    Number(Number),
    String(String),
    Array(Vec<Json>),
    Object(Vec<(String, Json)>),
}

/// [`Json`] as plain values.
pub enum JsonV {
    Null,
    Bool(bool),
    Number(Number),
    String(Seq<char>),
    Array(Seq<JsonV>),
    Object(Seq<(Seq<char>, JsonV)>),
}

impl Json {
    pub open spec fn view(&self) -> JsonV
        decreases self,
    {
        match self {
            Json::Null => JsonV::Null,
            Json::Bool(b) => JsonV::Bool(*b),
            Json::Number(n) => JsonV::Number(*n),
            Json::String(s) => JsonV::String(s@),
            Json::Array(items) => JsonV::Array(items_view(items@)),
            Json::Object(members) => JsonV::Object(members_view(members@)),
        }
    }
}

/// The views of a list of values.
pub open spec fn items_view(items: Seq<Json>) -> Seq<JsonV>
    decreases items,
{
    if items.len() == 0 {
        Seq::empty()
    } else {
        items_view(items.subrange(0, items.len() - 1)).push(items[items.len() - 1].view())
    }
}

/// The views of a list of object members.
pub open spec fn members_view(members: Seq<(String, Json)>) -> Seq<(Seq<char>, JsonV)>
    decreases members,
{
    if members.len() == 0 {
        Seq::empty()
    } else {
        members_view(members.subrange(0, members.len() - 1)).push(
            (members[members.len() - 1].0@, members[members.len() - 1].1.view()),
        )
    }
}

pub proof fn lemma_items_view(items: Seq<Json>)
    ensures
        items_view(items).len() == items.len(),
        forall|i: int| 0 <= i < items.len() ==> #[trigger] items_view(items)[i] == items[i].view(),
    decreases items.len(),
{
    if items.len() > 0 {
        let d = items.subrange(0, items.len() - 1);
        lemma_items_view(d);
        assert forall|i: int| 0 <= i < items.len() implies #[trigger] items_view(items)[i] == items[i].view() by {
            if i < items.len() - 1 {
                assert(items_view(items)[i] == items_view(d)[i]);
                assert(d[i] == items[i]);
            }
        }
    }
}

pub proof fn lemma_members_view(members: Seq<(String, Json)>)
    ensures
        members_view(members).len() == members.len(),
        forall|i: int| 0 <= i < members.len() ==> #[trigger] members_view(members)[i] == (members[i].0@, members[i].1.view()),
    decreases members.len(),
{
    if members.len() > 0 {
        let d = members.subrange(0, members.len() - 1);
        lemma_members_view(d);
        assert forall|i: int| 0 <= i < members.len() implies #[trigger] members_view(members)[i] == (members[i].0@, members[i].1.view()) by {
            if i < members.len() - 1 {
                assert(members_view(members)[i] == members_view(d)[i]);
                assert(d[i] == members[i]);
            }
        }
    }
}

/// Whether two JSON values are equal.
pub fn json_equal(a: &Json, b: &Json) -> (r: bool)
    ensures
        r == (a.view() == b.view()),
    decreases a,
{
    match (a, b) {
        (Json::Null, Json::Null) => true,
        (Json::Bool(x), Json::Bool(y)) => *x == *y,
        (Json::Number(x), Json::Number(y)) => *x == *y,
        (Json::String(x), Json::String(y)) => crate::text::str_equal(x.as_str(), y.as_str()),
        (Json::Array(x), Json::Array(y)) => {
            proof {
                lemma_items_view(x@);
                lemma_items_view(y@);
            }
            if x.len() != y.len() {
                return false;
            }
            let mut i: usize = 0;
            while i < x.len()
                invariant
                    x@.len() == y@.len(),
                    i <= x@.len(),
                    *a == Json::Array(*x),
                    *b == Json::Array(*y),
                    forall|k: int| 0 <= k < i ==> x@[k].view() == y@[k].view(),
                decreases x.len() - i,
            {
                proof {
                    assert(decreases_to!(*a => x@[i as int]));
                }
                if !json_equal(&x[i], &y[i]) {
                    proof {
                        lemma_items_view(x@);
                        lemma_items_view(y@);
                        assert(items_view(x@)[i as int] != items_view(y@)[i as int]);
                    }
                    return false;
                }
                i = i + 1;
            }
            proof {
                lemma_items_view(x@);
                lemma_items_view(y@);
                assert(items_view(x@) =~= items_view(y@));
            }
            true
        },
        (Json::Object(x), Json::Object(y)) => {
            proof {
                lemma_members_view(x@);
                lemma_members_view(y@);
            }
            if x.len() != y.len() {
                return false;
            }
            let mut i: usize = 0;
            while i < x.len()
                invariant
                    x@.len() == y@.len(),
                    i <= x@.len(),
                    *a == Json::Object(*x),
                    *b == Json::Object(*y),
                    forall|k: int| 0 <= k < i ==> x@[k].0@ == y@[k].0@ && x@[k].1.view() == y@[k].1.view(),
                decreases x.len() - i,
            {
                proof {
                    assert(decreases_to!(*a => x@[i as int].1));
                }
                if !crate::text::str_equal(x[i].0.as_str(), y[i].0.as_str()) || !json_equal(&x[i].1, &y[i].1) {
                    proof {
                        lemma_members_view(x@);
                        lemma_members_view(y@);
                        assert(members_view(x@)[i as int] != members_view(y@)[i as int]);
                    }
                    return false;
                }
                i = i + 1;
            }
            proof {
                lemma_members_view(x@);
                lemma_members_view(y@);
                assert(members_view(x@) =~= members_view(y@));
            }
            true
        },
        _ => false,
    }
}

/// A deep copy of a JSON value.
pub fn json_clone(a: &Json) -> (r: Json)
    ensures
        r.view() == a.view(),
    decreases a,
{
    match a {
        Json::Null => Json::Null,
        Json::Bool(b) => Json::Bool(*b),
        Json::Number(n) => Json::Number(*n),
        Json::String(s) => Json::String(crate::text::string_of(&crate::text::chars_of(s.as_str()))),
        Json::Array(items) => {
            let mut out: Vec<Json> = Vec::new();
            let mut i: usize = 0;
            while i < items.len()
                invariant
                    i <= items@.len(),
                    *a == Json::Array(*items),
                    out@.len() == i,
                    forall|k: int| 0 <= k < i ==> out@[k].view() == items@[k].view(),
                decreases items.len() - i,
            {
                proof {
                    assert(decreases_to!(*a => (*a)->Array_0));
                    assert((*a)->Array_0 == *items);
                    assert(decreases_to!(*items => items@));
                    assert(decreases_to!(items@ => items@[i as int]));
                }
                out.push(json_clone(&items[i]));
                i = i + 1;
            }
            let r = Json::Array(out);
            proof {
                lemma_items_view(out@);
                lemma_items_view(items@);
                assert(items_view(out@) =~= items_view(items@));
            }
            r
        },
        Json::Object(members) => {
            let mut out: Vec<(String, Json)> = Vec::new();
            let mut i: usize = 0;
            while i < members.len()
                invariant
                    i <= members@.len(),
                    *a == Json::Object(*members),
                    out@.len() == i,
                    forall|k: int| 0 <= k < i ==> out@[k].0@ == members@[k].0@ && out@[k].1.view() == members@[k].1.view(),
                decreases members.len() - i,
            {
                proof {
                    assert(decreases_to!(*a => (*a)->Object_0));
                    assert((*a)->Object_0 == *members);
                    assert(decreases_to!(*members => members@));
                    assert(decreases_to!(members@ => members@[i as int]));
                    assert(decreases_to!(members@[i as int] => members@[i as int].1));
                }
                let key = crate::text::string_of(&crate::text::chars_of(members[i].0.as_str()));
                out.push((key, json_clone(&members[i].1)));
                i = i + 1;
            }
            let r = Json::Object(out);
            proof {
                lemma_members_view(out@);
                lemma_members_view(members@);
                assert(members_view(out@) =~= members_view(members@));
            }
            r
        },
    }
}

} // verus!
