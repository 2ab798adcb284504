//! The canonical value algebra that decoded store values are expressed in.
use vstd::prelude::*;
use vstd::string::StringExecFns;

verus! {

/// Mathematical model of a `Literal`: the same shape, with text as `Seq<char>`
/// and bytes as `Seq<u8>`.
pub enum LitV {
    Null,
    Boolean(bool),
    String(Seq<char>),
    Number(Seq<char>),
    Binary(Seq<u8>),
    List(Seq<LitV>),
    Mapping(Seq<(Seq<char>, LitV)>),
    StringSet(Seq<Seq<char>>),
    NumberSet(Seq<Seq<char>>),
    BinarySet(Seq<Seq<u8>>),
}

/// A value as the engine sees it. Numbers keep their decimal text unchanged.
pub enum Literal {
    Null,
    Boolean(bool),
    String(String),
    Number(String),
    Binary(Vec<u8>),
    List(Vec<Literal>),
    Mapping(Vec<(String, Literal)>),
    StringSet(Vec<String>),
    NumberSet(Vec<String>),
    BinarySet(Vec<Vec<u8>>),
}

/// The texts of a sequence of strings.
pub open spec fn texts_view(v: Seq<String>) -> Seq<Seq<char>> {
    Seq::new(v.len(), |i: int| v[i]@)
}

/// The bytes of a sequence of byte strings.
pub open spec fn blobs_view(v: Seq<Vec<u8>>) -> Seq<Seq<u8>> {
    Seq::new(v.len(), |i: int| v[i]@)
}

/// The models of a sequence of literals.
pub open spec fn lits_view(s: Seq<Literal>) -> Seq<LitV>
    decreases s,
{
    Seq::new(
        s.len(),
        |i: int|
            if 0 <= i < s.len() {
                s[i].view()
            } else {
                LitV::Null
            },
    )
}

/// The models of a sequence of named literals.
pub open spec fn entries_view(s: Seq<(String, Literal)>) -> Seq<(Seq<char>, LitV)>
    decreases s,
{
    Seq::new(
        s.len(),
        |i: int|
            if 0 <= i < s.len() {
                (s[i].0@, s[i].1.view())
            } else {
                (Seq::empty(), LitV::Null)
            },
    )
}

impl View for Literal {
    type V = LitV;

    open spec fn view(&self) -> LitV
        decreases self,
    {
        match self {
            Literal::Null => LitV::Null,
            Literal::Boolean(b) => LitV::Boolean(*b),
            Literal::String(s) => LitV::String(s@),
            Literal::Number(n) => LitV::Number(n@),
            Literal::Binary(b) => LitV::Binary(b@),
            Literal::List(v) => LitV::List(lits_view(v@)),
            Literal::Mapping(v) => LitV::Mapping(entries_view(v@)),
            Literal::StringSet(v) => LitV::StringSet(texts_view(v@)),
            Literal::NumberSet(v) => LitV::NumberSet(texts_view(v@)),
            Literal::BinarySet(v) => LitV::BinarySet(blobs_view(v@)),
        }
    }
}

} // verus!

verus! {

/// The comma-separated concatenation of `parts`.
pub open spec fn join(parts: Seq<Seq<char>>) -> Seq<char>
    decreases parts.len(),
{
    if parts.len() == 0 {
        Seq::empty()
    } else if parts.len() == 1 {
        parts[0]
    } else {
        join(parts.drop_last()) + ", "@ + parts.last()
    }
}

/// The hexadecimal digit of a value below sixteen.
pub open spec fn hex_digit(n: u8) -> Seq<char> {
    if n == 0 { "0"@ } else if n == 1 { "1"@ } else if n == 2 { "2"@ } else if n == 3 { "3"@ }
    else if n == 4 { "4"@ } else if n == 5 { "5"@ } else if n == 6 { "6"@ } else if n == 7 { "7"@ }
    else if n == 8 { "8"@ } else if n == 9 { "9"@ } else if n == 10 { "a"@ } else if n == 11 { "b"@ }
    else if n == 12 { "c"@ } else if n == 13 { "d"@ } else if n == 14 { "e"@ } else { "f"@ }
}

/// Bytes as lower-case hexadecimal, two digits each.
pub open spec fn hex_text(b: Seq<u8>) -> Seq<char>
    decreases b.len(),
{
    if b.len() == 0 {
        Seq::empty()
    } else {
        hex_text(b.drop_last()) + hex_digit(b.last() / 16) + hex_digit(b.last() % 16)
    }
}

/// The textual forms of the elements of a list.
pub open spec fn list_parts(v: Seq<LitV>) -> Seq<Seq<char>>
    decreases v,
{
    Seq::new(v.len(), |i: int| if 0 <= i < v.len() { lit_text(v[i]) } else { Seq::empty() })
}

/// The textual forms `k: v` of the entries of a map.
pub open spec fn entry_parts(v: Seq<(Seq<char>, LitV)>) -> Seq<Seq<char>>
    decreases v,
{
    Seq::new(
        v.len(),
        |i: int| if 0 <= i < v.len() { v[i].0 + ": "@ + lit_text(v[i].1) } else { Seq::empty() },
    )
}

/// The textual form of a literal: text and numbers verbatim, booleans as
/// `true` / `false`, bytes in hexadecimal, lists and sets as `[a, b]`, maps as
/// `{k: v, ...}`.
pub open spec fn lit_text(l: LitV) -> Seq<char>
    decreases l,
{
    match l {
        LitV::Null => "null"@,
        LitV::Boolean(b) => if b { "true"@ } else { "false"@ },
        LitV::String(s) => s,
        LitV::Number(n) => n,
        LitV::Binary(b) => hex_text(b),
        LitV::List(v) => "["@ + join(list_parts(v)) + "]"@,
        LitV::Mapping(v) => "{"@ + join(entry_parts(v)) + "}"@,
        LitV::StringSet(v) => "["@ + join(v) + "]"@,
        LitV::NumberSet(v) => "["@ + join(v) + "]"@,
        LitV::BinarySet(v) => "["@ + join(Seq::new(v.len(), |i: int| hex_text(v[i]))) + "]"@,
    }
}

fn hex_digit_str(n: u8) -> (r: &'static str)
    requires
        n < 16,
    ensures
        r@ == hex_digit(n),
{
    if n == 0 { "0" } else if n == 1 { "1" } else if n == 2 { "2" } else if n == 3 { "3" }
    else if n == 4 { "4" } else if n == 5 { "5" } else if n == 6 { "6" } else if n == 7 { "7" }
    else if n == 8 { "8" } else if n == 9 { "9" } else if n == 10 { "a" } else if n == 11 { "b" }
    else if n == 12 { "c" } else if n == 13 { "d" } else if n == 14 { "e" } else { "f" }
}

/// Appends `b` in hexadecimal to `out`.
fn push_hex(out: &mut String, b: &Vec<u8>)
    ensures
        final(out)@ == old(out)@ + hex_text(b@),
{
    let ghost start = out@;
    let mut i: usize = 0;
    while i < b.len()
        invariant
            i <= b.len(),
            out@ == start + hex_text(b@.subrange(0, i as int)),
        decreases b.len() - i,
    {
        out.append(hex_digit_str(b[i] / 16));
        out.append(hex_digit_str(b[i] % 16));
        i = i + 1;
        proof {
            let s = b@.subrange(0, i as int);
            assert(s.drop_last() =~= b@.subrange(0, i - 1));
        }
    }
    assert(b@.subrange(0, b.len() as int) =~= b@);
}

/// Appends `", "` to `out` unless `i` is zero; the step of `join` between parts.
fn push_separator(out: &mut String, i: usize)
    ensures
        final(out)@ == old(out)@ + (if i == 0 { Seq::<char>::empty() } else { ", "@ }),
{
    if i != 0 {
        out.append(", ");
    } else {
        assert(out@ + Seq::<char>::empty() =~= out@);
    }
}

proof fn lemma_join_push(parts: Seq<Seq<char>>, p: Seq<char>)
    ensures
        join(parts.push(p)) == join(parts) + (if parts.len() == 0 { Seq::<char>::empty() } else { ", "@ }) + p,
{
    assert(parts.push(p).drop_last() =~= parts);
    if parts.len() == 0 {
        assert(join(parts) + Seq::<char>::empty() + p =~= p);
    }
}

proof fn lemma_join_prefix(parts: Seq<Seq<char>>, i: int)
    requires
        0 <= i < parts.len(),
    ensures
        join(parts.subrange(0, i + 1)) == join(parts.subrange(0, i)) + (if i == 0 { Seq::<char>::empty() } else { ", "@ }) + parts[i],
{
    assert(parts.subrange(0, i + 1) =~= parts.subrange(0, i).push(parts[i]));
    lemma_join_push(parts.subrange(0, i), parts[i]);
}

impl Literal {
    /// The textual form of this literal; see `lit_text`.
    pub fn to_text(&self) -> (r: String)
        ensures
            r@ == lit_text(self@),
        decreases self,
    {
        match self {
            Literal::Null => String::from_str("null"),
            Literal::Boolean(b) => if *b { String::from_str("true") } else { String::from_str("false") },
            Literal::String(s) => s.clone(),
            Literal::Number(n) => n.clone(),
            Literal::Binary(b) => {
                let mut out = String::new();
                push_hex(&mut out, b);
                out
            },
            Literal::List(v) => {
                let ghost parts = Seq::new(v@.len(), |i: int| lit_text(v@[i]@));
                let mut out = String::from_str("[");
                let mut i: usize = 0;
                while i < v.len()
                    invariant
                        i <= v.len(),
                        *self == Literal::List(*v),
                        parts == Seq::new(v@.len(), |i: int| lit_text(v@[i]@)),
                        out@ == "["@ + join(parts.subrange(0, i as int)),
                    decreases v.len() - i,
                {
                    proof {
                        assert(decreases_to!(*self => *v)) by { assert(decreases_to!(*self => self->List_0)); }
                        assert(decreases_to!(*v => v[i as int]));
                        lemma_join_prefix(parts, i as int);
                    }
                    push_separator(&mut out, i);
                    let t = v[i].to_text();
                    out.append(t.as_str());
                    i = i + 1;
                }
                out.append("]");
                proof {
                    assert(parts.subrange(0, v.len() as int) =~= parts);
                    let lv = self@->List_0;
                    assert(parts =~= list_parts(lv));
                }
                out
            },
            Literal::Mapping(v) => {
                let ghost parts = Seq::new(v@.len(), |i: int| v@[i].0@ + ": "@ + lit_text(v@[i].1@));
                let mut out = String::from_str("{");
                let mut i: usize = 0;
                while i < v.len()
                    invariant
                        i <= v.len(),
                        *self == Literal::Mapping(*v),
                        parts == Seq::new(v@.len(), |i: int| v@[i].0@ + ": "@ + lit_text(v@[i].1@)),
                        out@ == "{"@ + join(parts.subrange(0, i as int)),
                    decreases v.len() - i,
                {
                    proof {
                        assert(decreases_to!(*self => *v)) by { assert(decreases_to!(*self => self->Mapping_0)); }
                        assert(decreases_to!(*v => v[i as int]));
                        assert(decreases_to!(v[i as int] => v[i as int].1));
                        lemma_join_prefix(parts, i as int);
                    }
                    push_separator(&mut out, i);
                    out.append(v[i].0.as_str());
                    out.append(": ");
                    let t = v[i].1.to_text();
                    out.append(t.as_str());
                    i = i + 1;
                }
                out.append("}");
                proof {
                    assert(parts.subrange(0, v.len() as int) =~= parts);
                    let lv = self@->Mapping_0;
                    assert(lv == entries_view(v@));
                    assert forall|j: int| 0 <= j < lv.len() implies lv[j] == (v@[j].0@, v@[j].1@) by {}
                    assert(parts =~= entry_parts(lv));
                }
                out
            },
            Literal::StringSet(v) => texts_text(v),
            Literal::NumberSet(v) => texts_text(v),
            Literal::BinarySet(v) => {
                let ghost parts = Seq::new(v@.len(), |i: int| hex_text(v@[i]@));
                let mut out = String::from_str("[");
                let mut i: usize = 0;
                while i < v.len()
                    invariant
                        i <= v.len(),
                        parts == Seq::new(v@.len(), |i: int| hex_text(v@[i]@)),
                        out@ == "["@ + join(parts.subrange(0, i as int)),
                    decreases v.len() - i,
                {
                    proof {
                        lemma_join_prefix(parts, i as int);
                    }
                    push_separator(&mut out, i);
                    push_hex(&mut out, &v[i]);
                    i = i + 1;
                }
                out.append("]");
                proof {
                    assert(parts.subrange(0, v.len() as int) =~= parts);
                    assert(parts =~= Seq::new(blobs_view(v@).len(), |i: int| hex_text(blobs_view(v@)[i])));
                }
                out
            },
        }
    }
}

fn texts_text(v: &Vec<String>) -> (r: String)
    ensures
        r@ == "["@ + join(texts_view(v@)) + "]"@,
{
    let ghost parts = texts_view(v@);
    let mut out = String::from_str("[");
    let mut i: usize = 0;
    while i < v.len()
        invariant
            i <= v.len(),
            parts == texts_view(v@),
            out@ == "["@ + join(parts.subrange(0, i as int)),
        decreases v.len() - i,
    {
        proof {
            lemma_join_prefix(parts, i as int);
        }
        push_separator(&mut out, i);
        out.append(v[i].as_str());
        i = i + 1;
    }
    out.append("]");
    assert(parts.subrange(0, v.len() as int) =~= parts);
    out
}

} // verus!
