//! The two generic value trees the library works on.
//!
//! `Toml` is the shape of a parsed source document, `Json` the shape of the
//! rule document and of the output.  Both are plain recursive enums whose
//! tables/objects are ordered association lists; the parsers that produce
//! them live outside the library.  Floating-point scalars are carried as
//! their IEEE-754 bit pattern and never interpreted here.

use vstd::prelude::*;

verus! {

broadcast use vstd::std_specs::vec::group_vec_axioms, vstd::seq::group_seq_axioms;

/// A numeric scalar of an output document: an integer, or the bit pattern
/// of a binary64 floating-point number (produced and consumed outside).
#[derive(Clone, Copy, Debug, PartialEq, Eq)]
pub enum Number {
    Int(i64),
    FloatBits(u64),
}

/// Mathematical model of [`Number`].
pub enum SpecNumber {
    Int(int),
    FloatBits(u64),
}

impl View for Number {
    type V = SpecNumber;

    open spec fn view(&self) -> SpecNumber {
        match self {
            Number::Int(i) => SpecNumber::Int(*i as int),
            Number::FloatBits(b) => SpecNumber::FloatBits(*b),
        }
    }
}

/// A source document value: what a TOML-like parser hands in.
#[derive(Debug, PartialEq, Eq)]
pub enum Toml {
    String(String),
    Integer(i64),
    /// IEEE-754 bit pattern of a binary64 value.
    FloatBits(u64),
    Boolean(bool),
    /// A datetime already rendered to its textual form.
    Datetime(String),
    Array(Vec<Toml>),
    /// Ordered key-value pairs; a well-formed table has unique keys.
    Table(Vec<(String, Toml)>),
}

/// Mathematical model of [`Toml`].
#[verifier::ext_equal]
pub enum SpecToml {
    String(Seq<char>),
    Integer(int),
    FloatBits(u64),
    Boolean(bool),
    Datetime(Seq<char>),
    Array(Seq<SpecToml>),
    Table(Seq<(Seq<char>, SpecToml)>),
}

/// The model of `v`.
pub open spec fn spec_toml_view(v: &Toml) -> SpecToml
    decreases v,
{
    match v {
        Toml::String(s) => SpecToml::String(s@),
        Toml::Integer(i) => SpecToml::Integer(*i as int),
        Toml::FloatBits(b) => SpecToml::FloatBits(*b),
        Toml::Boolean(b) => SpecToml::Boolean(*b),
        Toml::Datetime(s) => SpecToml::Datetime(s@),
        Toml::Array(vs) => SpecToml::Array(
            Seq::new(
                vs@.len(),
                // the out-of-range branch is never taken; it serves the
                // termination check only
                |i: int|
                    if 0 <= i < vs@.len() {
                        spec_toml_view(&vs@[i])
                    } else {
                        SpecToml::Boolean(false)
                    },
            ),
        ),
        Toml::Table(es) => SpecToml::Table(
            Seq::new(
                es@.len(),
                |i: int|
                    if 0 <= i < es@.len() {
                        (es@[i].0@, spec_toml_view(&es@[i].1))
                    } else {
                        (Seq::empty(), SpecToml::Boolean(false))
                    },
            ),
        ),
    }
}

impl View for Toml {
    type V = SpecToml;

    open spec fn view(&self) -> SpecToml {
        spec_toml_view(self)
    }
}

impl Toml {
    /// An owned copy of this value.
    pub fn deep_clone(&self) -> (r: Toml)
        ensures
            r@ == self@,
        decreases self,
    {
        match self {
            Toml::String(s) => Toml::String(s.clone()),
            Toml::Integer(i) => Toml::Integer(*i),
            Toml::FloatBits(b) => Toml::FloatBits(*b),
            Toml::Boolean(b) => Toml::Boolean(*b),
            Toml::Datetime(s) => Toml::Datetime(s.clone()),
            Toml::Array(vs) => {
                let n = vs.len();
                let mut out: Vec<Toml> = Vec::new();
                let mut i: usize = 0;
                while i < n
                    invariant
                        i <= n,
                        n == vs@.len(),
                        out@.len() == i,
                        forall|j: int| 0 <= j < i ==> #[trigger] out@[j]@ == vs@[j]@,
                    decreases n - i,
                {
                    out.push(vs[i].deep_clone());
                    i = i + 1;
                }
                let r = Toml::Array(out);
                proof {
                    assert forall|j: int| 0 <= j < n implies spec_toml_view(&out@[j])
                        == spec_toml_view(&vs@[j]) by {
                        assert(out@[j]@ == vs@[j]@);
                    }
                    assert(r@ matches SpecToml::Array(a) && self@ matches SpecToml::Array(b)
                        && a =~= b);
                    assert(r@ =~= self@);
                }
                r
            },
            Toml::Table(es) => {
                let n = es.len();
                let mut out: Vec<(String, Toml)> = Vec::new();
                let mut i: usize = 0;
                while i < n
                    invariant
                        i <= n,
                        n == es@.len(),
                        out@.len() == i,
                        forall|j: int| 0 <= j < i ==> #[trigger] out@[j].0@ == es@[j].0@
                            && out@[j].1@ == es@[j].1@,
                    decreases n - i,
                {
                    out.push((es[i].0.clone(), es[i].1.deep_clone()));
                    i = i + 1;
                }
                let r = Toml::Table(out);
                proof {
                    assert(r@ matches SpecToml::Table(a) && self@ matches SpecToml::Table(b)
                        && a =~= b);
                    assert(r@ =~= self@);
                }
                r
            },
        }
    }
}

/// An output document value: what the external printer receives.
#[derive(Debug, PartialEq, Eq)]
pub enum Json {
    Null,
    Bool(bool),
    Number(Number),
    String(String),
    Array(Vec<Json>),
    /// Ordered key-value pairs; a well-formed object has unique keys.
    Object(Vec<(String, Json)>),
}

/// Mathematical model of [`Json`].
#[verifier::ext_equal]
pub enum SpecJson {
    Null,
    Bool(bool),
    Number(SpecNumber),
    String(Seq<char>),
    Array(Seq<SpecJson>),
    Object(Seq<(Seq<char>, SpecJson)>),
}

/// The model of `v`.
pub open spec fn spec_json_view(v: &Json) -> SpecJson
    decreases v,
{
    match v {
        Json::Null => SpecJson::Null,
        Json::Bool(b) => SpecJson::Bool(*b),
        Json::Number(n) => SpecJson::Number(n@),
        Json::String(s) => SpecJson::String(s@),
        Json::Array(vs) => SpecJson::Array(
            Seq::new(
                vs@.len(),
                // the out-of-range branch is never taken; it serves the
                // termination check only
                |i: int| if 0 <= i < vs@.len() { spec_json_view(&vs@[i]) } else { SpecJson::Null },
            ),
        ),
        Json::Object(es) => SpecJson::Object(
            Seq::new(
                es@.len(),
                |i: int|
                    if 0 <= i < es@.len() {
                        (es@[i].0@, spec_json_view(&es@[i].1))
                    } else {
                        (Seq::empty(), SpecJson::Null)
                    },
            ),
        ),
    }
}

impl View for Json {
    type V = SpecJson;

    open spec fn view(&self) -> SpecJson {
        spec_json_view(self)
    }
}

/// The models of a sequence of object entries.
pub open spec fn spec_obj_view(s: Seq<(String, Json)>) -> Seq<(Seq<char>, SpecJson)> {
    Seq::new(s.len(), |i: int| (s[i].0@, spec_json_view(&s[i].1)))
}

impl Json {
    /// An owned copy of this value.
    pub fn deep_clone(&self) -> (r: Json)
        ensures
            r@ == self@,
        decreases self,
    {
        match self {
            Json::Null => Json::Null,
            Json::Bool(b) => Json::Bool(*b),
            Json::Number(n) => Json::Number(*n),
            Json::String(s) => Json::String(s.clone()),
            Json::Array(vs) => {
                let n = vs.len();
                let mut out: Vec<Json> = Vec::new();
                let mut i: usize = 0;
                while i < n
                    invariant
                        i <= n,
                        n == vs@.len(),
                        out@.len() == i,
                        forall|j: int| 0 <= j < i ==> #[trigger] spec_json_view(&out@[j])
                            == spec_json_view(&vs@[j]),
                    decreases n - i,
                {
                    out.push(vs[i].deep_clone());
                    i = i + 1;
                }
                let r = Json::Array(out);
                proof {
                    assert forall|j: int| 0 <= j < n implies spec_json_view(&out@[j])
                        == spec_json_view(&vs@[j]) by {
                        assert(out@[j]@ == spec_json_view(&out@[j]));
                    }
                    assert(r@ matches SpecJson::Array(a) && self@ matches SpecJson::Array(b)
                        && a =~= b);
                    assert(r@ =~= self@);
                }
                r
            },
            Json::Object(es) => {
                let n = es.len();
                let mut out: Vec<(String, Json)> = Vec::new();
                let mut i: usize = 0;
                while i < n
                    invariant
                        i <= n,
                        n == es@.len(),
                        out@.len() == i,
                        forall|j: int| 0 <= j < i ==> #[trigger] out@[j].0@ == es@[j].0@
                            && spec_json_view(&out@[j].1) == spec_json_view(&es@[j].1),
                    decreases n - i,
                {
                    out.push((es[i].0.clone(), es[i].1.deep_clone()));
                    i = i + 1;
                }
                let r = Json::Object(out);
                proof {
                    assert(r@ matches SpecJson::Object(a) && self@ matches SpecJson::Object(b)
                        && a =~= b);
                    assert(r@ =~= self@);
                }
                r
            },
        }
    }
}

} // verus!
