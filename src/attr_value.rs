//! The store's tagged wire value and its decoding into `Literal`s.
use vstd::prelude::*;
use crate::literal::{Literal, LitV, texts_view, blobs_view, lits_view, entries_view, lit_text};
use vstd::string::StringExecFns;
use crate::number::{num_key, same_number, NumKey};
use crate::text::text_eq;

verus! {

/// The store's wire form of one attribute value: a tagged union in which at
/// most one tag is expected to be set.
pub struct AttributeValue {
    pub b: Option<Vec<u8>>,
    pub bool: Option<bool>,
    pub bs: Option<Vec<Vec<u8>>>,
    pub l: Option<Vec<AttributeValue>>,
    pub m: Option<Vec<(String, AttributeValue)>>,
    pub n: Option<String>,
    pub ns: Option<Vec<String>>,
    pub null: Option<bool>,
    pub s: Option<String>,
    pub ss: Option<Vec<String>>,
}

/// The present values of `s`, in order.
pub open spec fn somes<T>(s: Seq<Option<T>>) -> Seq<T>
    decreases s.len(),
{
    if s.len() == 0 {
        Seq::empty()
    } else {
        let r = somes(s.drop_last());
        match s.last() {
            Some(x) => r.push(x),
            None => r,
        }
    }
}

/// The present entries of `s` in order, each key kept at its first entry.
pub open spec fn first_entries(s: Seq<Option<(Seq<char>, LitV)>>) -> Seq<(Seq<char>, LitV)>
    decreases s.len(),
{
    if s.len() == 0 {
        Seq::empty()
    } else {
        let r = first_entries(s.drop_last());
        match s.last() {
            Some(e) => if exists|j: int| 0 <= j < r.len() && (#[trigger] r[j]).0 == e.0 { r } else { r.push(e) },
            None => r,
        }
    }
}

/// What set members are compared by: numbers by their decimal key, text as is.
pub open spec fn text_key(t: Seq<char>, numeric: bool) -> NumKey {
    if numeric { num_key(t) } else { NumKey::Text(t) }
}

/// The members of `s` in order, leaving out each one equal to an earlier one.
pub open spec fn first_texts(s: Seq<Seq<char>>, numeric: bool) -> Seq<Seq<char>>
    decreases s.len(),
{
    if s.len() == 0 {
        Seq::empty()
    } else {
        let r = first_texts(s.drop_last(), numeric);
        if exists|j: int| 0 <= j < r.len() && text_key(#[trigger] r[j], numeric) == text_key(s.last(), numeric) {
            r
        } else {
            r.push(s.last())
        }
    }
}

/// The members of `s` in order, leaving out each one equal to an earlier one.
pub open spec fn first_blobs(s: Seq<Seq<u8>>) -> Seq<Seq<u8>>
    decreases s.len(),
{
    if s.len() == 0 {
        Seq::empty()
    } else {
        let r = first_blobs(s.drop_last());
        if r.contains(s.last()) { r } else { r.push(s.last()) }
    }
}

/// Decoding of a wire value. Tags are tried in the order null, string,
/// number, boolean, binary, map, list, string set, number set, binary set;
/// children of maps and lists that do not decode are dropped, and so are
/// map entries whose key an earlier entry has and set members equal to an
/// earlier member (numbers compared by `num_key`).
pub open spec fn decode(a: AttributeValue) -> Option<LitV>
    decreases a,
{
    if a.null is Some {
        Some(LitV::Null)
    } else if a.s is Some {
        Some(LitV::String(a.s->0@))
    } else if a.n is Some {
        Some(LitV::Number(a.n->0@))
    } else if a.bool is Some {
        Some(LitV::Boolean(a.bool->0))
    } else if a.b is Some {
        Some(LitV::Binary(a.b->0@))
    } else if a.m is Some {
        Some(LitV::Mapping(first_entries(decoded_entries(a.m->0@))))
    } else if a.l is Some {
        Some(LitV::List(somes(decoded_items(a.l->0@))))
    } else if a.ss is Some {
        Some(LitV::StringSet(first_texts(texts_view(a.ss->0@), false)))
    } else if a.ns is Some {
        Some(LitV::NumberSet(first_texts(texts_view(a.ns->0@), true)))
    } else if a.bs is Some {
        Some(LitV::BinarySet(first_blobs(blobs_view(a.bs->0@))))
    } else {
        None
    }
}

/// The decoded children of a list, one entry per child.
pub open spec fn decoded_items(v: Seq<AttributeValue>) -> Seq<Option<LitV>>
    decreases v,
{
    Seq::new(
        v.len(),
        |i: int|
            if 0 <= i < v.len() {
                decode(v[i])
            } else {
                None
            },
    )
}

/// The decoded entries of a map, one entry per child.
pub open spec fn decoded_entries(v: Seq<(String, AttributeValue)>) -> Seq<
    Option<(Seq<char>, LitV)>,
>
    decreases v,
{
    Seq::new(
        v.len(),
        |i: int|
            if 0 <= i < v.len() {
                match decode(v[i].1) {
                    Some(x) => Some((v[i].0@, x)),
                    None => None,
                }
            } else {
                None
            },
    )
}

/// The model of an optional literal.
pub open spec fn opt_view(r: Option<Literal>) -> Option<LitV> {
    match r {
        Some(l) => Some(l@),
        None => None,
    }
}

/// The wire value with no tag set.
pub open spec fn is_untagged(a: AttributeValue) -> bool {
    &&& a.b is None
    &&& a.bool is None
    &&& a.bs is None
    &&& a.l is None
    &&& a.m is None
    &&& a.n is None
    &&& a.ns is None
    &&& a.null is None
    &&& a.s is None
    &&& a.ss is None
}

impl AttributeValue {
    /// A wire value with no tag set.
    pub fn empty() -> (r: AttributeValue)
        ensures
            is_untagged(r),
    {
        AttributeValue {
            b: None,
            bool: None,
            bs: None,
            l: None,
            m: None,
            n: None,
            ns: None,
            null: None,
            s: None,
            ss: None,
        }
    }
}

fn copy_texts(v: &Vec<String>) -> (r: Vec<String>)
    ensures
        texts_view(r@) == texts_view(v@),
{
    let mut r: Vec<String> = Vec::new();
    let mut i: usize = 0;
    while i < v.len()
        invariant
            i <= v.len(),
            r@ == v@.subrange(0, i as int),
        decreases v.len() - i,
    {
        r.push(v[i].clone());
        i = i + 1;
        assert(r@ =~= v@.subrange(0, i as int));
    }
    assert(v@.subrange(0, v.len() as int) =~= v@);
    r
}

fn copy_bytes(v: &Vec<u8>) -> (r: Vec<u8>)
    ensures
        r@ == v@,
{
    let mut r: Vec<u8> = Vec::new();
    let mut i: usize = 0;
    while i < v.len()
        invariant
            i <= v.len(),
            r@ == v@.subrange(0, i as int),
        decreases v.len() - i,
    {
        r.push(v[i]);
        i = i + 1;
        assert(r@ =~= v@.subrange(0, i as int));
    }
    assert(v@.subrange(0, v.len() as int) =~= v@);
    r
}

fn copy_blobs(v: &Vec<Vec<u8>>) -> (r: Vec<Vec<u8>>)
    ensures
        blobs_view(r@) == blobs_view(v@),
{
    let mut r: Vec<Vec<u8>> = Vec::new();
    let mut i: usize = 0;
    while i < v.len()
        invariant
            i <= v.len(),
            r.len() == i,
            forall|j: int| 0 <= j < i ==> (#[trigger] r@[j])@ == v@[j]@,
        decreases v.len() - i,
    {
        r.push(copy_bytes(&v[i]));
        i = i + 1;
    }
    assert(blobs_view(r@) =~= blobs_view(v@));
    r
}

fn has_entry(out: &Vec<(String, Literal)>, k: &str) -> (r: bool)
    ensures
        r == exists|j: int| 0 <= j < out@.len() && (#[trigger] out@[j]).0@ == k@,
{
    let mut j: usize = 0;
    while j < out.len()
        invariant
            j <= out.len(),
            forall|m: int| 0 <= m < j ==> (#[trigger] out@[m]).0@ != k@,
        decreases out.len() - j,
    {
        if text_eq(out[j].0.as_str(), k) {
            return true;
        }
        j = j + 1;
    }
    false
}

fn same_text_key(a: &str, b: &str, numeric: bool) -> (r: bool)
    ensures
        r == (text_key(a@, numeric) == text_key(b@, numeric)),
{
    if numeric { same_number(a, b) } else { text_eq(a, b) }
}

fn same_bytes(a: &Vec<u8>, b: &Vec<u8>) -> (r: bool)
    ensures
        r == (a@ == b@),
{
    if a.len() != b.len() {
        return false;
    }
    let mut i: usize = 0;
    while i < a.len()
        invariant
            a.len() == b.len(),
            i <= a.len(),
            forall|j: int| 0 <= j < i ==> a@[j] == b@[j],
        decreases a.len() - i,
    {
        if a[i] != b[i] {
            return false;
        }
        i = i + 1;
    }
    assert(a@ =~= b@);
    true
}

/// The members of `v` in order, each kept only if no earlier one equals it.
fn first_texts_of(v: &Vec<String>, numeric: bool) -> (r: Vec<String>)
    ensures
        texts_view(r@) == first_texts(texts_view(v@), numeric),
{
    let mut r: Vec<String> = Vec::new();
    let mut i: usize = 0;
    while i < v.len()
        invariant
            i <= v.len(),
            texts_view(r@) == first_texts(texts_view(v@.subrange(0, i as int)), numeric),
        decreases v.len() - i,
    {
        let mut seen = false;
        let mut j: usize = 0;
        while j < r.len()
            invariant
                j <= r.len(),
                i < v.len(),
                seen == exists|m: int| 0 <= m < j && text_key((#[trigger] r@[m])@, numeric) == text_key(v@[i as int]@, numeric),
            decreases r.len() - j,
        {
            if same_text_key(r[j].as_str(), v[i].as_str(), numeric) {
                seen = true;
            }
            j = j + 1;
        }
        proof {
            let t = texts_view(v@.subrange(0, i + 1));
            assert(t.drop_last() =~= texts_view(v@.subrange(0, i as int)));
            assert(t.last() == v@[i as int]@);
            let rv = texts_view(r@);
            if seen {
                let m = choose|m: int| 0 <= m < r@.len() && text_key((#[trigger] r@[m])@, numeric) == text_key(v@[i as int]@, numeric);
                assert(rv[m] == r@[m]@);
            } else {
                assert forall|m: int| 0 <= m < rv.len() implies text_key(#[trigger] rv[m], numeric) != text_key(t.last(), numeric) by {
                    assert(rv[m] == r@[m]@);
                }
            }
        }
        if !seen {
            r.push(v[i].clone());
            assert(texts_view(r@) =~= first_texts(texts_view(v@.subrange(0, i as int)), numeric).push(v@[i as int]@));
        }
        i = i + 1;
        proof {
            let t = texts_view(v@.subrange(0, i as int));
            assert(t.drop_last() =~= texts_view(v@.subrange(0, i - 1)));
        }
    }
    assert(v@.subrange(0, v.len() as int) =~= v@);
    r
}

/// The members of `v` in order, each kept only if no earlier one equals it.
fn first_blobs_of(v: &Vec<Vec<u8>>) -> (r: Vec<Vec<u8>>)
    ensures
        blobs_view(r@) == first_blobs(blobs_view(v@)),
{
    let mut r: Vec<Vec<u8>> = Vec::new();
    let mut i: usize = 0;
    while i < v.len()
        invariant
            i <= v.len(),
            blobs_view(r@) == first_blobs(blobs_view(v@.subrange(0, i as int))),
        decreases v.len() - i,
    {
        let mut seen = false;
        let mut j: usize = 0;
        while j < r.len()
            invariant
                j <= r.len(),
                i < v.len(),
                seen == exists|m: int| 0 <= m < j && (#[trigger] r@[m])@ == v@[i as int]@,
            decreases r.len() - j,
        {
            if same_bytes(&r[j], &v[i]) {
                seen = true;
            }
            j = j + 1;
        }
        proof {
            let t = blobs_view(v@.subrange(0, i + 1));
            assert(t.drop_last() =~= blobs_view(v@.subrange(0, i as int)));
            assert(t.last() == v@[i as int]@);
            let rv = blobs_view(r@);
            if seen {
                let m = choose|m: int| 0 <= m < r@.len() && (#[trigger] r@[m])@ == v@[i as int]@;
                assert(rv[m] == r@[m]@);
                assert(rv.contains(t.last()));
            } else {
                assert forall|m: int| 0 <= m < rv.len() implies #[trigger] rv[m] != t.last() by {
                    assert(rv[m] == r@[m]@);
                }
            }
        }
        if !seen {
            r.push(copy_bytes(&v[i]));
            assert(blobs_view(r@) =~= first_blobs(blobs_view(v@.subrange(0, i as int))).push(v@[i as int]@));
        }
        i = i + 1;
        proof {
            let t = blobs_view(v@.subrange(0, i as int));
            assert(t.drop_last() =~= blobs_view(v@.subrange(0, i - 1)));
        }
    }
    assert(v@.subrange(0, v.len() as int) =~= v@);
    r
}

/// Decodes one wire value; see `decode`.
pub fn decode_value(a: &AttributeValue) -> (r: Option<Literal>)
    ensures
        opt_view(r) == decode(*a),
    decreases a,
{
    if let Some(_) = &a.null {
        return Some(Literal::Null);
    }
    if let Some(v) = &a.s {
        return Some(Literal::String(v.clone()));
    }
    if let Some(v) = &a.n {
        return Some(Literal::Number(v.clone()));
    }
    if let Some(v) = &a.bool {
        return Some(Literal::Boolean(*v));
    }
    if let Some(v) = &a.b {
        return Some(Literal::Binary(copy_bytes(v)));
    }
    if let Some(v) = &a.m {
        let mut out: Vec<(String, Literal)> = Vec::new();
        let mut i: usize = 0;
        while i < v.len()
            invariant
                i <= v.len(),
                a.m == Some(*v),
                entries_view(out@) == first_entries(decoded_entries(v@).subrange(0, i as int)),
            decreases v.len() - i,
        {
            proof {
                assert(decreases_to!(*a => a.m));
                assert(decreases_to!(a.m => a.m->0));
                assert(decreases_to!(*v => v[i as int]));
                assert(decreases_to!(v[i as int] => v[i as int].1));
            }
            let ghost before = out@;
            match decode_value(&v[i].1) {
                Some(x) => {
                    let seen = has_entry(&out, v[i].0.as_str());
                    proof {
                        let ev = entries_view(out@);
                        if seen {
                            let j = choose|j: int| 0 <= j < out@.len() && (#[trigger] out@[j]).0@ == v@[i as int].0@;
                            assert(ev[j].0 == v@[i as int].0@);
                        } else {
                            assert forall|j: int| 0 <= j < ev.len() implies (#[trigger] ev[j]).0 != v@[i as int].0@ by {
                                assert(ev[j].0 == out@[j].0@);
                            }
                        }
                    }
                    if !seen {
                        out.push((v[i].0.clone(), x));
                    }
                },
                None => {},
            }
            i = i + 1;
            proof {
                let d = decoded_entries(v@).subrange(0, i as int);
                assert(d.drop_last() =~= decoded_entries(v@).subrange(0, i - 1));
                assert(entries_view(out@) =~= first_entries(d));
            }
        }
        let r = Literal::Mapping(out);
        proof {
            assert(decoded_entries(v@).subrange(0, v.len() as int) =~= decoded_entries(v@));
        }
        return Some(r);
    }
    if let Some(v) = &a.l {
        let mut out: Vec<Literal> = Vec::new();
        let mut i: usize = 0;
        while i < v.len()
            invariant
                i <= v.len(),
                a.m is None,
                a.l == Some(*v),
                lits_view(out@) == somes(decoded_items(v@).subrange(0, i as int)),
            decreases v.len() - i,
        {
            proof {
                assert(decreases_to!(*a => a.l));
                assert(decreases_to!(a.l => a.l->0));
                assert(decreases_to!(*v => v[i as int]));
            }
            match decode_value(&v[i]) {
                Some(x) => {
                    out.push(x);
                },
                None => {},
            }
            i = i + 1;
            proof {
                let d = decoded_items(v@).subrange(0, i as int);
                assert(d.drop_last() =~= decoded_items(v@).subrange(0, i - 1));
                assert(lits_view(out@) =~= somes(d));
            }
        }
        let r = Literal::List(out);
        proof {
            assert(decoded_items(v@).subrange(0, v.len() as int) =~= decoded_items(v@));
        }
        return Some(r);
    }
    if let Some(v) = &a.ss {
        return Some(Literal::StringSet(first_texts_of(v, false)));
    }
    if let Some(v) = &a.ns {
        return Some(Literal::NumberSet(first_texts_of(v, true)));
    }
    if let Some(v) = &a.bs {
        return Some(Literal::BinarySet(first_blobs_of(v)));
    }
    None
}

/// The wire value carrying only a string.
pub open spec fn string_attr(v: String) -> AttributeValue {
    AttributeValue { s: Some(v), ..untagged() }
}

/// The wire value carrying only a number, as its decimal text.
pub open spec fn number_attr(v: String) -> AttributeValue {
    AttributeValue { n: Some(v), ..untagged() }
}

/// The wire value carrying only bytes.
pub open spec fn binary_attr(v: Vec<u8>) -> AttributeValue {
    AttributeValue { b: Some(v), ..untagged() }
}

/// The wire value with no tag set.
pub open spec fn untagged() -> AttributeValue {
    AttributeValue {
        b: None,
        bool: None,
        bs: None,
        l: None,
        m: None,
        n: None,
        ns: None,
        null: None,
        s: None,
        ss: None,
    }
}

/// The text shown for a wire value: its literal's text, or `--EMPTY--` when it
/// does not decode.
pub open spec fn display_text(a: AttributeValue) -> Seq<char> {
    match decode(a) {
        Some(l) => lit_text(l),
        None => "--EMPTY--"@,
    }
}

/// One attribute value of a result row, kept in wire form until shown.
pub struct AttrValue {
    pub value: AttributeValue,
}

impl AttrValue {
    /// Wraps a wire value.
    pub fn new(value: AttributeValue) -> (r: AttrValue)
        ensures
            r.value == value,
    {
        AttrValue { value }
    }

    /// The literal this value decodes to, if any; see `decode`.
    pub fn to_literal(&self) -> (r: Option<Literal>)
        ensures
            opt_view(r) == decode(self.value),
            r matches Some(l) ==> lit_wf(l@),
    {
        proof {
            lemma_decode_wf(self.value);
        }
        decode_value(&self.value)
    }

    /// A number, kept as its decimal text.
    pub fn from_number(value: String) -> (r: AttrValue)
        ensures
            r.value == number_attr(value),
    {
        AttrValue { value: AttributeValue { n: Some(value), ..AttributeValue::empty() } }
    }

    /// A byte string.
    pub fn from_binary(value: Vec<u8>) -> (r: AttrValue)
        ensures
            r.value == binary_attr(value),
    {
        AttrValue { value: AttributeValue { b: Some(value), ..AttributeValue::empty() } }
    }

    /// A string.
    pub fn from_string(value: String) -> (r: AttrValue)
        ensures
            r.value == string_attr(value),
    {
        AttrValue { value: AttributeValue { s: Some(value), ..AttributeValue::empty() } }
    }

    /// The wire form of a literal; see `encode_value`.
    pub fn from_literal(l: &Literal) -> (r: AttrValue)
        requires
            lit_wf(l@),
        ensures
            decode(r.value) == Some(l@),
    {
        AttrValue { value: encode_value(l) }
    }

    /// The text shown for this value; see `display_text`.
    pub fn to_text(&self) -> (r: String)
        ensures
            r@ == display_text(self.value),
    {
        match self.to_literal() {
            Some(l) => l.to_text(),
            None => String::from_str("--EMPTY--"),
        }
    }
}

proof fn lemma_somes_all<T>(s: Seq<Option<T>>, t: Seq<T>)
    requires
        s.len() == t.len(),
        forall|i: int| 0 <= i < s.len() ==> s[i] == Some(#[trigger] t[i]),
    ensures
        somes(s) == t,
    decreases s.len(),
{
    if s.len() > 0 {
        lemma_somes_all(s.drop_last(), t.drop_last());
        assert(t.drop_last().push(t.last()) =~= t);
    }
}

proof fn lemma_wf_list_child(s: Seq<LitV>, i: int)
    requires
        lit_wf(LitV::List(s)),
        0 <= i < s.len(),
    ensures
        lit_wf(s[i]),
{
    let l = LitV::List(s);
    assert(decreases_to!(l => l->List_0));
    assert(decreases_to!(s => s[i]));
    assert(lit_wf(l) == forall|j: int| 0 <= j < s.len() ==> lit_wf(#[trigger] s[j]));
}

/// Encodes a literal in wire form. Decoding the result gives the literal
/// back: numbers keep their text, lists and maps their order.
pub fn encode_value(l: &Literal) -> (r: AttributeValue)
    requires
        lit_wf(l@),
    ensures
        decode(r) == Some(l@),
    decreases l,
{
    match l {
        Literal::Null => AttributeValue { null: Some(true), ..AttributeValue::empty() },
        Literal::Boolean(b) => AttributeValue { bool: Some(*b), ..AttributeValue::empty() },
        Literal::String(t) => AttributeValue { s: Some(t.clone()), ..AttributeValue::empty() },
        Literal::Number(t) => AttributeValue { n: Some(t.clone()), ..AttributeValue::empty() },
        Literal::Binary(b) => AttributeValue { b: Some(copy_bytes(b)), ..AttributeValue::empty() },
        Literal::List(v) => {
            let mut out: Vec<AttributeValue> = Vec::new();
            let mut i: usize = 0;
            while i < v.len()
                invariant
                    i <= v.len(),
                    *l == Literal::List(*v),
                    lit_wf(l@),
                    out@.len() == i,
                    forall|j: int| 0 <= j < i ==> decode(#[trigger] out@[j]) == Some(v@[j]@),
                decreases v.len() - i,
            {
                proof {
                    assert(decreases_to!(*l => *v)) by {
                        assert(decreases_to!(*l => l->List_0));
                    }
                    assert(decreases_to!(*v => v[i as int]));
                    assert(lits_view(v@)[i as int] == v@[i as int]@);
                    assert(l@ == LitV::List(lits_view(v@)));
                    lemma_wf_list_child(lits_view(v@), i as int);
                }
                out.push(encode_value(&v[i]));
                i = i + 1;
            }
            let r = AttributeValue { l: Some(out), ..AttributeValue::empty() };
            proof {
                lemma_somes_all(decoded_items(out@), lits_view(v@));
            }
            r
        },
        Literal::Mapping(v) => {
            let mut out: Vec<(String, AttributeValue)> = Vec::new();
            let mut i: usize = 0;
            while i < v.len()
                invariant
                    i <= v.len(),
                    *l == Literal::Mapping(*v),
                    lit_wf(l@),
                    out@.len() == i,
                    forall|j: int|
                        0 <= j < i ==> (#[trigger] out@[j]).0 == v@[j].0 && decode(out@[j].1) == Some(v@[j].1@),
                decreases v.len() - i,
            {
                proof {
                    assert(decreases_to!(*l => *v)) by {
                        assert(decreases_to!(*l => l->Mapping_0));
                    }
                    assert(decreases_to!(*v => v[i as int]));
                    assert(decreases_to!(v[i as int] => v[i as int].1));
                    assert(entries_view(v@)[i as int].1 == v@[i as int].1@);
                }
                let x = encode_value(&v[i].1);
                out.push((v[i].0.clone(), x));
                i = i + 1;
            }
            let r = AttributeValue { m: Some(out), ..AttributeValue::empty() };
            proof {
                lemma_first_entries_all(decoded_entries(out@), entries_view(v@));
            }
            r
        },
        Literal::StringSet(v) => {
            proof { lemma_first_texts_all(texts_view(v@), false); }
            AttributeValue { ss: Some(copy_texts(v)), ..AttributeValue::empty() }
        },
        Literal::NumberSet(v) => {
            proof { lemma_first_texts_all(texts_view(v@), true); }
            AttributeValue { ns: Some(copy_texts(v)), ..AttributeValue::empty() }
        },
        Literal::BinarySet(v) => {
            proof { lemma_first_blobs_all(blobs_view(v@)); }
            AttributeValue { bs: Some(copy_blobs(v)), ..AttributeValue::empty() }
        },
    }
}

/// Position in `s` of the `k`-th present value.
pub open spec fn somes_pos<T>(s: Seq<Option<T>>, k: int) -> int
    decreases s.len(),
{
    if s.len() == 0 {
        0
    } else if s.last() is Some && k == somes(s.drop_last()).len() {
        s.len() - 1
    } else {
        somes_pos(s.drop_last(), k)
    }
}

proof fn lemma_somes_pos<T>(s: Seq<Option<T>>)
    ensures
        forall|k: int|
            0 <= k < somes(s).len() ==> 0 <= #[trigger] somes_pos(s, k) < s.len() && s[somes_pos(s, k)] == Some(
                somes(s)[k],
            ),
        forall|k1: int, k2: int|
            0 <= k1 < k2 < somes(s).len() ==> #[trigger] somes_pos(s, k1) < #[trigger] somes_pos(s, k2),
    decreases s.len(),
{
    if s.len() > 0 {
        let p = s.drop_last();
        lemma_somes_pos(p);
        assert forall|k: int| 0 <= k < somes(s).len() implies 0 <= #[trigger] somes_pos(s, k) < s.len() && s[somes_pos(s, k)] == Some(somes(s)[k]) by {
            if !(s.last() is Some && k == somes(p).len()) {
                assert(somes_pos(s, k) == somes_pos(p, k));
                assert(p[somes_pos(p, k)] == s[somes_pos(p, k)]);
            }
        }
        assert forall|k1: int, k2: int| 0 <= k1 < k2 < somes(s).len() implies #[trigger] somes_pos(s, k1) < #[trigger] somes_pos(s, k2) by {
            assert(somes_pos(s, k1) == somes_pos(p, k1));
            if !(s.last() is Some && k2 == somes(p).len()) {
                assert(somes_pos(s, k2) == somes_pos(p, k2));
            }
        }
    }
}

/// No two entries of a map share a key.
pub open spec fn keys_distinct<V>(s: Seq<(Seq<char>, V)>) -> bool {
    forall|i: int, j: int| 0 <= i < j < s.len() ==> (#[trigger] s[i]).0 != (#[trigger] s[j]).0
}

/// No two members of `s` are equal (numbers compared by `num_key`).
pub open spec fn texts_distinct(s: Seq<Seq<char>>, numeric: bool) -> bool {
    forall|i: int, j: int| 0 <= i < j < s.len() ==> text_key(#[trigger] s[i], numeric) != text_key(#[trigger] s[j], numeric)
}

proof fn lemma_first_entries(s: Seq<Option<(Seq<char>, LitV)>>)
    ensures
        keys_distinct(first_entries(s)),
        forall|k: int| 0 <= k < first_entries(s).len() ==> exists|p: int| 0 <= p < s.len() && s[p] == Some(#[trigger] first_entries(s)[k]),
    decreases s.len(),
{
    if s.len() > 0 {
        let r = first_entries(s.drop_last());
        lemma_first_entries(s.drop_last());
        assert forall|k: int| 0 <= k < first_entries(s).len() implies exists|p: int| 0 <= p < s.len() && s[p] == Some(#[trigger] first_entries(s)[k]) by {
            if k < r.len() {
                assert(first_entries(s)[k] == r[k]);
                let p = choose|p: int| 0 <= p < s.drop_last().len() && s.drop_last()[p] == Some(#[trigger] r[k]);
                assert(s[p] == s.drop_last()[p]);
            } else {
                assert(s[s.len() - 1] == Some(first_entries(s)[k]));
            }
        }
    }
}

proof fn lemma_first_entries_all(s: Seq<Option<(Seq<char>, LitV)>>, t: Seq<(Seq<char>, LitV)>)
    requires
        s.len() == t.len(),
        forall|i: int| 0 <= i < s.len() ==> s[i] == Some(#[trigger] t[i]),
        keys_distinct(t),
    ensures
        first_entries(s) == t,
    decreases s.len(),
{
    if s.len() > 0 {
        lemma_first_entries_all(s.drop_last(), t.drop_last());
        assert(s.last() == Some(t.last()));
        assert forall|j: int| 0 <= j < t.drop_last().len() implies (#[trigger] t.drop_last()[j]).0 != t.last().0 by {
            assert(t.drop_last()[j] == t[j]);
        }
        assert(keys_distinct(t.drop_last())) by {
            assert forall|i: int, j: int| 0 <= i < j < t.drop_last().len() implies (#[trigger] t.drop_last()[i]).0 != (#[trigger] t.drop_last()[j]).0 by {
                assert(t.drop_last()[i] == t[i] && t.drop_last()[j] == t[j]);
            }
        }
        assert(t.drop_last().push(t.last()) =~= t);
    }
}

proof fn lemma_first_texts(s: Seq<Seq<char>>, numeric: bool)
    ensures
        texts_distinct(first_texts(s, numeric), numeric),
    decreases s.len(),
{
    if s.len() > 0 {
        lemma_first_texts(s.drop_last(), numeric);
    }
}

proof fn lemma_first_texts_all(s: Seq<Seq<char>>, numeric: bool)
    requires
        texts_distinct(s, numeric),
    ensures
        first_texts(s, numeric) == s,
    decreases s.len(),
{
    if s.len() > 0 {
        let p = s.drop_last();
        assert forall|i: int, j: int| 0 <= i < j < p.len() implies text_key(#[trigger] p[i], numeric) != text_key(#[trigger] p[j], numeric) by {
            assert(p[i] == s[i] && p[j] == s[j]);
        }
        lemma_first_texts_all(p, numeric);
        assert forall|j: int| 0 <= j < p.len() implies text_key(#[trigger] p[j], numeric) != text_key(s.last(), numeric) by {
            assert(p[j] == s[j]);
        }
        assert(p.push(s.last()) =~= s);
    }
}

proof fn lemma_first_blobs(s: Seq<Seq<u8>>)
    ensures
        first_blobs(s).no_duplicates(),
    decreases s.len(),
{
    if s.len() > 0 {
        lemma_first_blobs(s.drop_last());
        let r = first_blobs(s.drop_last());
        if !r.contains(s.last()) {
            assert forall|i: int, j: int| 0 <= i < j < r.push(s.last()).len() implies r.push(s.last())[i] != r.push(s.last())[j] by {
                if j == r.len() {
                    assert(r.push(s.last())[i] == r[i]);
                }
            }
        }
    }
}

proof fn lemma_first_blobs_all(s: Seq<Seq<u8>>)
    requires
        s.no_duplicates(),
    ensures
        first_blobs(s) == s,
    decreases s.len(),
{
    if s.len() > 0 {
        let p = s.drop_last();
        assert forall|i: int, j: int| 0 <= i < j < p.len() implies p[i] != p[j] by {
            assert(p[i] == s[i] && p[j] == s[j]);
        }
        lemma_first_blobs_all(p);
        assert(!p.contains(s.last())) by {
            if p.contains(s.last()) {
                let j = choose|j: int| 0 <= j < p.len() && p[j] == s.last();
                assert(s[j] == s[s.len() - 1]);
            }
        }
        assert(p.push(s.last()) =~= s);
    }
}

/// Well-formed literal: map keys are distinct and sets hold no duplicates
/// (numbers compared by `num_key`), at every depth.
pub open spec fn lit_wf(l: LitV) -> bool
    decreases l,
{
    match l {
        LitV::List(v) => forall|i: int| 0 <= i < v.len() ==> lit_wf(#[trigger] v[i]),
        LitV::Mapping(v) => keys_distinct(v) && forall|i: int| 0 <= i < v.len() ==> lit_wf(#[trigger] v[i].1),
        LitV::StringSet(v) => texts_distinct(v, false),
        LitV::NumberSet(v) => texts_distinct(v, true),
        LitV::BinarySet(v) => v.no_duplicates(),
        _ => true,
    }
}

/// Every literal that decoding gives is well-formed.
pub proof fn lemma_decode_wf(a: AttributeValue)
    ensures
        decode(a) matches Some(l) ==> lit_wf(l),
    decreases a,
{
    if a.null is None && a.s is None && a.n is None && a.bool is None && a.b is None {
        if a.m is Some {
            let v = a.m->0;
            let d = decoded_entries(v@);
            let out = first_entries(d);
            lemma_first_entries(d);
            assert forall|k: int| 0 <= k < out.len() implies lit_wf(#[trigger] out[k].1) by {
                let p = choose|p: int| 0 <= p < d.len() && d[p] == Some(#[trigger] out[k]);
                assert(decreases_to!(a => v[p].1)) by {
                    assert(decreases_to!(a => a.m));
                    assert(decreases_to!(a.m => a.m->0));
                    assert(decreases_to!(v => v[p]));
                    assert(decreases_to!(v[p] => v[p].1));
                }
                lemma_decode_wf(v[p].1);
            }
        } else if a.l is Some {
            let v = a.l->0;
            let d = decoded_items(v@);
            let out = somes(d);
            lemma_somes_pos(d);
            assert forall|k: int| 0 <= k < out.len() implies lit_wf(#[trigger] out[k]) by {
                let p = somes_pos(d, k);
                assert(decreases_to!(a => v[p])) by {
                    assert(decreases_to!(a => a.l));
                    assert(decreases_to!(a.l => a.l->0));
                    assert(decreases_to!(v => v[p]));
                }
                lemma_decode_wf(v[p]);
            }
        } else if a.ss is Some {
            lemma_first_texts(texts_view(a.ss->0@), false);
        } else if a.ns is Some {
            lemma_first_texts(texts_view(a.ns->0@), true);
        } else if a.bs is Some {
            lemma_first_blobs(blobs_view(a.bs->0@));
        }
    }
}

proof fn lemma_first_entries_keeps(s: Seq<Option<(Seq<char>, LitV)>>, p: int)
    requires
        0 <= p < s.len(),
        s[p] is Some,
        forall|q: int| 0 <= q < s.len() && q != p && (#[trigger] s[q]) is Some ==> (s[q]->0).0 != (s[p]->0).0,
    ensures
        first_entries(s).contains(s[p]->0),
    decreases s.len(),
{
    let r = first_entries(s.drop_last());
    lemma_first_entries(s.drop_last());
    if p == s.len() - 1 {
        assert forall|j: int| 0 <= j < r.len() implies (#[trigger] r[j]).0 != (s[p]->0).0 by {
            let q = choose|q: int| 0 <= q < s.drop_last().len() && s.drop_last()[q] == Some(#[trigger] r[j]);
            assert(s[q] == s.drop_last()[q]);
        }
        assert(first_entries(s) == r.push(s[p]->0));
        assert(first_entries(s)[r.len() as int] == s[p]->0);
    } else {
        assert forall|q: int| 0 <= q < s.drop_last().len() && q != p && (#[trigger] s.drop_last()[q]) is Some implies (s.drop_last()[q]->0).0 != (s.drop_last()[p]->0).0 by {
            assert(s.drop_last()[q] == s[q]);
        }
        lemma_first_entries_keeps(s.drop_last(), p);
        let k = choose|k: int| 0 <= k < r.len() && r[k] == s[p]->0;
        assert(first_entries(s)[k] == r[k]);
    }
}

/// A map never fails to decode because of its children: children with no
/// tag add no entry, every entry comes from a child that has a tag, and a
/// string child whose key no other child has is kept.
pub proof fn lemma_map_decode_robust(a: AttributeValue)
    requires
        a.null is None,
        a.s is None,
        a.n is None,
        a.bool is None,
        a.b is None,
        a.m is Some,
    ensures
        decode(a) matches Some(LitV::Mapping(es)) && {
            let v = a.m->0@;
            &&& forall|i: int| 0 <= i < v.len() && is_untagged(#[trigger] v[i].1) ==> decoded_entries(v)[i] is None
            &&& forall|k: int| 0 <= k < es.len() ==> exists|p: int|
                0 <= p < v.len() && !is_untagged(v[p].1) && decoded_entries(v)[p] == Some(#[trigger] es[k])
            &&& forall|p: int|
                0 <= p < v.len() && (#[trigger] v[p].1).null is None && v[p].1.s is Some && (forall|q: int|
                    0 <= q < v.len() && q != p ==> (#[trigger] v[q]).0@ != v[p].0@) ==> es.contains(
                    (v[p].0@, LitV::String(v[p].1.s->0@)),
                )
        },
{
    let v = a.m->0@;
    let d = decoded_entries(v);
    lemma_first_entries(d);
    let es = first_entries(d);
    assert forall|k: int| 0 <= k < es.len() implies exists|p: int|
        0 <= p < v.len() && !is_untagged(v[p].1) && d[p] == Some(#[trigger] es[k]) by {
        let p = choose|p: int| 0 <= p < d.len() && d[p] == Some(#[trigger] es[k]);
        assert(!is_untagged(v[p].1));
    }
    assert forall|p: int|
        0 <= p < v.len() && (#[trigger] v[p].1).null is None && v[p].1.s is Some && (forall|q: int|
            0 <= q < v.len() && q != p ==> (#[trigger] v[q]).0@ != v[p].0@) implies es.contains(
            (v[p].0@, LitV::String(v[p].1.s->0@)),
        ) by {
        assert forall|q: int| 0 <= q < d.len() && q != p && (#[trigger] d[q]) is Some implies (d[q]->0).0 != (d[p]->0).0 by {
            assert(v[q].0@ != v[p].0@);
        }
        lemma_first_entries_keeps(d, p);
    }
}

/// Decoding a value built by `from_string`, `from_number` or `from_binary`
/// gives back the literal it was built from, with the same text or bytes.
pub proof fn lemma_round_trip(text: String, bytes: Vec<u8>)
    ensures
        decode(string_attr(text)) == Some(LitV::String(text@)),
        decode(number_attr(text)) == Some(LitV::Number(text@)),
        decode(binary_attr(bytes)) == Some(LitV::Binary(bytes@)),
{
}

/// A map holding one string child and one child with no tag decodes to a map
/// holding the string child alone.
pub proof fn lemma_decode_drops_untagged(
    a: AttributeValue,
    k1: String,
    text: String,
    k2: String,
    e: AttributeValue,
)
    requires
        a.null is None,
        a.s is None,
        a.n is None,
        a.bool is None,
        a.b is None,
        a.m is Some,
        a.m->0@ == seq![(k1, string_attr(text)), (k2, e)],
        is_untagged(e),
    ensures
        decode(a) == Some(LitV::Mapping(seq![(k1@, LitV::String(text@))])),
{
    let d = decoded_entries(a.m->0@);
    assert(d[0] == Some((k1@, LitV::String(text@))));
    assert(d[1] is None);
    let d1 = d.drop_last();
    assert(d1.drop_last() =~= Seq::<Option<(Seq<char>, LitV)>>::empty());
    assert(first_entries(d1.drop_last()) == Seq::<(Seq<char>, LitV)>::empty());
    assert(d1.last() == d[0]);
    assert(first_entries(d1) =~= seq![(k1@, LitV::String(text@))]);
    assert(first_entries(d) == first_entries(d1));
}

} // verus!
