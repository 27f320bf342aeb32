//! The chunk value type: a JSON value as the decoder sees it.
//!
//! `Json` is the executable representation, `JVal` its mathematical view.
//! A JSON number is kept in one of three forms: an integer that fits `i64`
//! (the only form that can act as a reference index), an integer that only
//! fits `u64`, or any other number carried as its decimal text (the decoder
//! never reads such a number, it only passes it through).

use vstd::prelude::*;

verus! {

broadcast use vstd::std_specs::vec::group_vec_axioms, vstd::seq::group_seq_axioms;

/// An executable JSON value.
#[derive(Debug, PartialEq, Eq)]
pub enum Json {
    Null,
    Bool(bool),
    Int(i64),
    BigUint(u64),
    NumText(String),
    Str(String),
    Arr(Vec<Json>),
    Obj(Vec<(String, Json)>),
}

/// The mathematical view of a JSON value.
pub enum JVal {
    Null,
    Bool(bool),
    Int(i64),
    BigUint(u64),
    NumText(Seq<char>),
    Str(Seq<char>),
    Arr(Seq<JVal>),
    Obj(Seq<(Seq<char>, JVal)>),
}

impl Json {
    /// The mathematical value that this chunk stands for.
    pub open spec fn view(self) -> JVal
        decreases self via Self::view_decreases
    {
        match self {
            Json::Null => JVal::Null,
            Json::Bool(b) => JVal::Bool(b),
            Json::Int(i) => JVal::Int(i),
            Json::BigUint(u) => JVal::BigUint(u),
            Json::NumText(s) => JVal::NumText(s@),
            Json::Str(s) => JVal::Str(s@),
            Json::Arr(v) => JVal::Arr(
                Seq::new(
                    v@.len(),
                    |i: int|
                        if 0 <= i < v@.len() {
                            v@[i].view()
                        } else {
                            JVal::Null
                        },
                ),
            ),
            Json::Obj(v) => JVal::Obj(
                Seq::new(
                    v@.len(),
                    |i: int|
                        if 0 <= i < v@.len() {
                            (v@[i].0@, v@[i].1.view())
                        } else {
                            (Seq::empty(), JVal::Null)
                        },
                ),
            ),
        }
    }

    #[via_fn]
    proof fn view_decreases(self) {
        match self {
            Json::Arr(v) => {
                assert forall|i: int| 0 <= i < v@.len() implies decreases_to!(self => v@[i]) by {
                    assert(decreases_to!(self => v));
                    assert(decreases_to!(v => v@[i]));
                }
            },
            Json::Obj(v) => {
                assert forall|i: int| 0 <= i < v@.len() implies decreases_to!(
                    self => v@[i].1,
                ) by {
                    assert(decreases_to!(self => v));
                    assert(decreases_to!(v => v@[i]));
                    assert(decreases_to!(v@[i] => v@[i].1));
                }
            },
            _ => {},
        }
    }
}

/// The views of a sequence of chunks, elementwise.
pub open spec fn table_view(t: Seq<Json>) -> Seq<JVal> {
    Seq::new(t.len(), |i: int| t[i].view())
}

/// Deep copy of a chunk; the copy has the same mathematical value.
#[verifier::loop_isolation(false)]
pub fn clone_json(v: &Json) -> (r: Json)
    ensures
        r.view() == v.view(),
    decreases *v,
{
    match v {
        Json::Null => Json::Null,
        Json::Bool(b) => Json::Bool(*b),
        Json::Int(i) => Json::Int(*i),
        Json::BigUint(u) => Json::BigUint(*u),
        Json::NumText(s) => Json::NumText(s.clone()),
        Json::Str(s) => Json::Str(s.clone()),
        Json::Arr(es) => {
            let mut out: Vec<Json> = Vec::new();
            let mut i: usize = 0;
            while i < es.len()
                invariant
                    i <= es.len(),
                    out@.len() == i as int,
                    forall|j: int| 0 <= j < i as int ==> out@[j].view() == es@[j].view(),
                decreases es@.len() - i as int,
            {
                proof {
                    assert(*v == Json::Arr(*es));
                    assert(decreases_to!(Json::Arr(*es) => *es));
                    assert(decreases_to!(*es => es@[i as int]));
                }
                let e = clone_json(&es[i]);
                out.push(e);
                i = i + 1;
            }
            proof {
                assert(v.view() matches JVal::Arr(s) && s =~= table_view(out@));
                assert(Json::Arr(out).view() matches JVal::Arr(s) && s =~= table_view(out@));
            }
            Json::Arr(out)
        },
        Json::Obj(ps) => {
            let mut out: Vec<(String, Json)> = Vec::new();
            let mut i: usize = 0;
            while i < ps.len()
                invariant
                    i <= ps.len(),
                    out@.len() == i as int,
                    forall|j: int| 0 <= j < i as int
                        ==> out@[j].0@ == ps@[j].0@ && out@[j].1.view() == ps@[j].1.view(),
                decreases ps@.len() - i as int,
            {
                proof {
                    assert(*v == Json::Obj(*ps));
                    assert(decreases_to!(Json::Obj(*ps) => *ps));
                    assert(decreases_to!(*ps => ps@[i as int]));
                    assert(decreases_to!(ps@[i as int] => ps@[i as int].1));
                }
                let k = ps[i].0.clone();
                let e = clone_json(&ps[i].1);
                out.push((k, e));
                i = i + 1;
            }
            proof {
                assert(v.view() matches JVal::Obj(s) ==> s =~= pairs_view(out@));
                assert(Json::Obj(out).view() matches JVal::Obj(s) ==> s =~= pairs_view(out@));
            }
            Json::Obj(out)
        },
    }
}

/// The views of a sequence of key/value pairs, elementwise.
pub open spec fn pairs_view(t: Seq<(String, Json)>) -> Seq<(Seq<char>, JVal)> {
    Seq::new(t.len(), |i: int| (t[i].0@, t[i].1.view()))
}

} // verus!
