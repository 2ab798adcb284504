//! Result tables: rows of named attribute values and their rendering as a grid
//! of text.
use vstd::prelude::*;
use vstd::string::StringExecFns;
use crate::attr_value::{AttributeValue, AttrValue, display_text};
use crate::text::text_eq;
use crate::literal::texts_view;

verus! {

/// One row of a result: attribute names with their values.
pub struct ExecuteResultItem {
    pub attrs: Vec<(String, AttrValue)>,
}

/// The value held under `k`: that of the first attribute named `k`.
pub open spec fn attr_of(attrs: Seq<(String, AttrValue)>, k: Seq<char>) -> Option<AttributeValue>
    decreases attrs.len(),
{
    if attrs.len() == 0 {
        None
    } else if attrs[0].0@ == k {
        Some(attrs[0].1.value)
    } else {
        attr_of(attrs.drop_first(), k)
    }
}

/// No two attributes of the row share a name.
pub open spec fn keys_unique(attrs: Seq<(String, AttrValue)>) -> bool {
    forall|i: int, j: int| 0 <= i < j < attrs.len() ==> (#[trigger] attrs[i]).0@ != (#[trigger] attrs[j]).0@
}

/// Whether some attribute of the row is named `k`.
pub open spec fn has_key(attrs: Seq<(String, AttrValue)>, k: Seq<char>) -> bool {
    exists|j: int| 0 <= j < attrs.len() && (#[trigger] attrs[j]).0@ == k
}

/// The text of the cell of a row under the column `h`: the value's text, or
/// `--` when the row has no such attribute.
pub open spec fn cell_text(attrs: Seq<(String, AttrValue)>, h: Seq<char>) -> Seq<char> {
    match attr_of(attrs, h) {
        Some(v) => display_text(v),
        None => "--"@,
    }
}

/// The attribute names that occur in any row.
pub open spec fn header_set(items: Seq<ExecuteResultItem>) -> Set<Seq<char>> {
    Set::new(|k: Seq<char>| exists|i: int| 0 <= i < items.len() && has_key(#[trigger] items[i].attrs@, k))
}

proof fn lemma_attr_of_absent(attrs: Seq<(String, AttrValue)>, k: Seq<char>)
    requires
        !has_key(attrs, k),
    ensures
        attr_of(attrs, k) is None,
    decreases attrs.len(),
{
    if attrs.len() > 0 {
        assert forall|j: int| 0 <= j < attrs.drop_first().len() implies (#[trigger] attrs.drop_first()[j]).0@ != k by {
            assert(attrs.drop_first()[j] == attrs[j + 1]);
        }
        lemma_attr_of_absent(attrs.drop_first(), k);
    }
}

/// Position of the first attribute of `attrs` named `k`.
fn find_attr(attrs: &Vec<(String, AttrValue)>, k: &str) -> (r: Option<usize>)
    ensures
        match r {
            Some(i) => i < attrs.len() && attrs@[i as int].0@ == k@ && attr_of(attrs@, k@) == Some(
                attrs@[i as int].1.value,
            ) && forall|j: int| 0 <= j < i ==> (#[trigger] attrs@[j]).0@ != k@,
            None => attr_of(attrs@, k@) is None && !has_key(attrs@, k@),
        },
{
    let mut i: usize = 0;
    assert(attrs@.subrange(0, attrs.len() as int) =~= attrs@);
    while i < attrs.len()
        invariant
            i <= attrs.len(),
            attr_of(attrs@, k@) == attr_of(attrs@.subrange(i as int, attrs.len() as int), k@),
            forall|j: int| 0 <= j < i ==> (#[trigger] attrs@[j]).0@ != k@,
        decreases attrs.len() - i,
    {
        proof {
            let s = attrs@.subrange(i as int, attrs.len() as int);
            assert(s.drop_first() =~= attrs@.subrange(i + 1, attrs.len() as int));
            assert(s[0] == attrs@[i as int]);
        }
        if text_eq(attrs[i].0.as_str(), k) {
            return Some(i);
        }
        i = i + 1;
    }
    proof {
        assert(attrs@.subrange(i as int, attrs.len() as int).len() == 0);
    }
    None
}

impl ExecuteResultItem {
    /// A row with no attributes.
    pub fn new() -> (r: ExecuteResultItem)
        ensures
            r.attrs@.len() == 0,
            keys_unique(r.attrs@),
    {
        ExecuteResultItem { attrs: Vec::new() }
    }

    /// Sets the value under `key`, replacing the one held there before.
    pub fn add_key_value(&mut self, key: String, value: AttrValue)
        ensures
            attr_of(final(self).attrs@, key@) == Some(value.value),
            forall|k: Seq<char>| k != key@ ==> attr_of(final(self).attrs@, k) == attr_of(old(self).attrs@, k),
            forall|k: Seq<char>| has_key(final(self).attrs@, k) <==> (has_key(old(self).attrs@, k) || k == key@),
            keys_unique(old(self).attrs@) ==> keys_unique(final(self).attrs@),
    {
        let ghost old_attrs = self.attrs@;
        match find_attr(&self.attrs, key.as_str()) {
            Some(i) => {
                self.attrs.set(i, (key, value));
                proof {
                    let n = self.attrs@;
                    if keys_unique(old_attrs) {
                        assert forall|a: int, b: int| 0 <= a < b < n.len() implies (#[trigger] n[a]).0@ != (#[trigger] n[b]).0@ by {
                            assert(n[a].0@ == old_attrs[a].0@ && n[b].0@ == old_attrs[b].0@);
                        }
                    }
                    assert forall|k: Seq<char>| k != key@ implies attr_of(n, k) == attr_of(old_attrs, k) by {
                        lemma_attr_of_replace(old_attrs, i as int, n, k);
                    }
                    lemma_attr_of_replace(old_attrs, i as int, n, key@);
                    assert forall|k: Seq<char>| has_key(n, k) <==> (has_key(old_attrs, k) || k == key@) by {
                        if has_key(old_attrs, k) {
                            let j = choose|j: int| 0 <= j < old_attrs.len() && (#[trigger] old_attrs[j]).0@ == k;
                            assert(n[j].0@ == k);
                        }
                        if has_key(n, k) {
                            let j = choose|j: int| 0 <= j < n.len() && (#[trigger] n[j]).0@ == k;
                            assert(old_attrs[j].0@ == k);
                        }
                    }
                }
            },
            None => {
                self.attrs.push((key, value));
                proof {
                    let n = self.attrs@;
                    if keys_unique(old_attrs) {
                        assert forall|a: int, b: int| 0 <= a < b < n.len() implies (#[trigger] n[a]).0@ != (#[trigger] n[b]).0@ by {
                            assert(n[a] == old_attrs[a]);
                            if b < old_attrs.len() {
                                assert(n[b] == old_attrs[b]);
                            }
                        }
                    }
                    lemma_attr_of_push(old_attrs, n, key@);
                    assert forall|k: Seq<char>| k != key@ implies attr_of(n, k) == attr_of(old_attrs, k) by {
                        lemma_attr_of_push(old_attrs, n, k);
                    }
                    assert forall|k: Seq<char>| has_key(n, k) <==> (has_key(old_attrs, k) || k == key@) by {
                        if has_key(old_attrs, k) {
                            let j = choose|j: int| 0 <= j < old_attrs.len() && (#[trigger] old_attrs[j]).0@ == k;
                            assert(n[j] == old_attrs[j]);
                        }
                        if k == key@ {
                            assert(n[old_attrs.len() as int].0@ == k);
                        }
                        if has_key(n, k) && k != key@ {
                            let j = choose|j: int| 0 <= j < n.len() && (#[trigger] n[j]).0@ == k;
                            assert(old_attrs[j] == n[j]);
                        }
                    }
                }
            },
        }
    }

    /// A row holding the given attributes, in the given order.
    pub fn from_attrs(attrs: Vec<(String, AttributeValue)>) -> (r: ExecuteResultItem)
        ensures
            r.attrs@.len() == attrs@.len(),
            forall|i: int|
                0 <= i < attrs@.len() ==> (#[trigger] r.attrs@[i]).0 == attrs@[i].0 && r.attrs@[i].1.value
                    == attrs@[i].1,
            (forall|i: int, j: int| 0 <= i < j < attrs@.len() ==> (#[trigger] attrs@[i]).0@ != (#[trigger] attrs@[j]).0@)
                ==> keys_unique(r.attrs@),
    {
        let mut rest = attrs;
        let ghost orig = rest@;
        let mut out: Vec<(String, AttrValue)> = Vec::new();
        while rest.len() > 0
            invariant
                out@.len() + rest@.len() == orig.len(),
                rest@ == orig.subrange(out@.len() as int, orig.len() as int),
                forall|i: int|
                    0 <= i < out@.len() ==> (#[trigger] out@[i]).0 == orig[i].0 && out@[i].1.value == orig[i].1,
            decreases rest.len(),
        {
            let (k, v) = rest.remove(0);
            out.push((k, AttrValue::new(v)));
            assert(rest@ =~= orig.subrange(out@.len() as int, orig.len() as int));
        }
        proof {
            assert forall|i: int, j: int| 0 <= i < j < out@.len() implies (#[trigger] out@[i]).0@ != (#[trigger] out@[j]).0@
                || !(forall|a: int, b: int| 0 <= a < b < orig.len() ==> (#[trigger] orig[a]).0@ != (#[trigger] orig[b]).0@) by {
                assert(out@[i].0 == orig[i].0 && out@[j].0 == orig[j].0);
            }
        }
        ExecuteResultItem { attrs: out }
    }
}

proof fn lemma_attr_of_replace(
    s: Seq<(String, AttrValue)>,
    i: int,
    n: Seq<(String, AttrValue)>,
    k: Seq<char>,
)
    requires
        0 <= i < s.len(),
        n.len() == s.len(),
        forall|j: int| 0 <= j < s.len() && j != i ==> n[j] == s[j],
        n[i].0@ == s[i].0@,
        forall|j: int| 0 <= j < i ==> (#[trigger] s[j]).0@ != s[i].0@,
    ensures
        k != s[i].0@ ==> attr_of(n, k) == attr_of(s, k),
        k == s[i].0@ ==> attr_of(n, k) == Some(n[i].1.value),
    decreases i,
{
    if i > 0 {
        assert forall|j: int| 0 <= j < s.drop_first().len() && j != i - 1 implies n.drop_first()[j] == s.drop_first()[j] by {
            assert(n.drop_first()[j] == n[j + 1]);
        }
        assert forall|j: int| 0 <= j < i - 1 implies (#[trigger] s.drop_first()[j]).0@ != s.drop_first()[i - 1].0@ by {
            assert(s.drop_first()[j] == s[j + 1]);
        }
        assert(s[0].0@ != s[i].0@);
        assert(n[0] == s[0]);
        lemma_attr_of_replace(s.drop_first(), i - 1, n.drop_first(), k);
    } else {
        assert(n.drop_first() =~= s.drop_first());
    }
}

proof fn lemma_attr_of_push(s: Seq<(String, AttrValue)>, n: Seq<(String, AttrValue)>, k: Seq<char>)
    requires
        n.len() == s.len() + 1,
        forall|j: int| 0 <= j < s.len() ==> n[j] == s[j],
        !has_key(s, n.last().0@),
    ensures
        k != n.last().0@ ==> attr_of(n, k) == attr_of(s, k),
        k == n.last().0@ ==> attr_of(n, k) == Some(n.last().1.value),
    decreases s.len(),
{
    if s.len() > 0 {
        assert(n[0] == s[0]);
        assert forall|j: int| 0 <= j < s.drop_first().len() implies n.drop_first()[j] == s.drop_first()[j] by {
            assert(n.drop_first()[j] == n[j + 1]);
        }
        assert(!has_key(s.drop_first(), n.last().0@)) by {
            if has_key(s.drop_first(), n.last().0@) {
                let j = choose|j: int| 0 <= j < s.drop_first().len() && (#[trigger] s.drop_first()[j]).0@ == n.last().0@;
                assert(s[j + 1] == s.drop_first()[j]);
            }
        }
        assert(s[0].0@ != n.last().0@);
        lemma_attr_of_push(s.drop_first(), n.drop_first(), k);
    } else {
        assert(n.drop_first().len() == 0);
        assert(attr_of(n.drop_first(), k) is None);
    }
}

/// `h` followed by each attribute name of `attrs` that it does not hold
/// yet, in the order of `attrs`.
pub open spec fn add_keys(h: Seq<Seq<char>>, attrs: Seq<(String, AttrValue)>) -> Seq<Seq<char>>
    decreases attrs.len(),
{
    if attrs.len() == 0 {
        h
    } else {
        let r = add_keys(h, attrs.drop_last());
        if r.contains(attrs.last().0@) { r } else { r.push(attrs.last().0@) }
    }
}

/// The headers of rows: each attribute name once, in order of first
/// occurrence, rows taken in order and each row's attributes in order.
pub open spec fn header_seq(items: Seq<ExecuteResultItem>) -> Seq<Seq<char>>
    decreases items.len(),
{
    if items.len() == 0 {
        Seq::empty()
    } else {
        add_keys(header_seq(items.drop_last()), items.last().attrs@)
    }
}

/// Whether some entry of `h` is the text `k`.
pub open spec fn contains_text(h: Seq<String>, k: Seq<char>) -> bool {
    exists|c: int| 0 <= c < h.len() && (#[trigger] h[c])@ == k
}

/// No two entries of `h` are the same text.
pub open spec fn distinct_texts(h: Seq<String>) -> bool {
    forall|a: int, b: int| 0 <= a < b < h.len() ==> (#[trigger] h[a])@ != (#[trigger] h[b])@
}

fn find_text(h: &Vec<String>, k: &str) -> (r: bool)
    ensures
        r == contains_text(h@, k@),
{
    let mut c: usize = 0;
    while c < h.len()
        invariant
            c <= h.len(),
            forall|d: int| 0 <= d < c ==> (#[trigger] h@[d])@ != k@,
        decreases h.len() - c,
    {
        if text_eq(h[c].as_str(), k) {
            return true;
        }
        c = c + 1;
    }
    false
}

/// Appends to `headers` each attribute name of `attrs` it does not hold yet.
#[verifier::rlimit(40)]
fn add_headers(headers: &mut Vec<String>, attrs: &Vec<(String, AttrValue)>)
    requires
        distinct_texts(old(headers)@),
    ensures
        distinct_texts(final(headers)@),
        forall|k: Seq<char>|
            contains_text(final(headers)@, k) <==> (contains_text(old(headers)@, k) || has_key(attrs@, k)),
        texts_view(final(headers)@) == add_keys(texts_view(old(headers)@), attrs@),
{
    let ghost start = headers@;
    let mut j: usize = 0;
    while j < attrs.len()
        invariant
            j <= attrs.len(),
            distinct_texts(headers@),
            forall|k: Seq<char>|
                contains_text(headers@, k) <==> (contains_text(start, k) || has_key(
                    attrs@.subrange(0, j as int),
                    k,
                )),
            texts_view(headers@) == add_keys(texts_view(start), attrs@.subrange(0, j as int)),
        decreases attrs.len() - j,
    {
        let ghost before = headers@;
        assert(forall|k: Seq<char>| #[trigger] contains_text(before, k) <==> (contains_text(start, k) || has_key(attrs@.subrange(0, j as int), k)));
        let key = &attrs[j].0;
        let found = find_text(headers, key.as_str());
        if !found {
            headers.push(key.clone());
        }
        proof {
            let hv = texts_view(before);
            let sub = attrs@.subrange(0, j + 1);
            assert(sub.drop_last() =~= attrs@.subrange(0, j as int));
            assert(sub.last() == attrs@[j as int]);
            if found {
                let c = choose|c: int| 0 <= c < before.len() && (#[trigger] before[c])@ == key@;
                assert(hv[c] == key@);
                assert(texts_view(headers@) == add_keys(texts_view(start), sub));
            } else {
                assert forall|c: int| 0 <= c < hv.len() implies #[trigger] hv[c] != key@ by {
                    assert(hv[c] == before[c]@);
                }
                assert(!hv.contains(key@));
                assert(texts_view(headers@) =~= hv.push(key@));
            }
            assert forall|a: int, b: int| 0 <= a < b < headers@.len() implies (#[trigger] headers@[a])@ != (#[trigger] headers@[b])@ by {
                if b == before.len() && !found {
                    assert(headers@[a] == before[a]);
                    assert(headers@[b]@ == key@);
                } else {
                    assert(headers@[a] == before[a]);
                    assert(headers@[b] == before[b]);
                }
            }
            assert forall|k: Seq<char>| contains_text(headers@, k) <==> (contains_text(before, k) || k == key@) by {
                if contains_text(before, k) {
                    let c = choose|c: int| 0 <= c < before.len() && (#[trigger] before[c])@ == k;
                    assert(headers@[c] == before[c]);
                }
                if k == key@ && !found {
                    assert(headers@[before.len() as int]@ == k);
                }
                if contains_text(headers@, k) && k != key@ {
                    let c = choose|c: int| 0 <= c < headers@.len() && (#[trigger] headers@[c])@ == k;
                    assert(before[c] == headers@[c]);
                }
            }
            assert forall|k: Seq<char>| has_key(attrs@.subrange(0, j + 1), k) <==> (has_key(attrs@.subrange(0, j as int), k) || k == key@) by {
                let s = attrs@.subrange(0, j + 1);
                let p = attrs@.subrange(0, j as int);
                if has_key(s, k) {
                    let d = choose|d: int| 0 <= d < s.len() && (#[trigger] s[d]).0@ == k;
                    if d < j {
                        assert(p[d] == s[d]);
                    }
                }
                if has_key(p, k) {
                    let d = choose|d: int| 0 <= d < p.len() && (#[trigger] p[d]).0@ == k;
                    assert(s[d] == p[d]);
                }
                if k == key@ {
                    assert(s[j as int].0@ == k);
                }
            }
            assert forall|k: Seq<char>| #[trigger] contains_text(headers@, k) <==> (contains_text(start, k) || has_key(attrs@.subrange(0, j + 1), k)) by {
                assert(contains_text(before, k) <==> (contains_text(start, k) || has_key(attrs@.subrange(0, j as int), k)));
            }
        }
        j = j + 1;
    }
    assert(attrs@.subrange(0, attrs.len() as int) =~= attrs@);
    assert(texts_view(old(headers)@) == texts_view(start));
    assert forall|k: Seq<char>|
        #[trigger] contains_text(headers@, k) <==> (contains_text(old(headers)@, k) || has_key(attrs@, k)) by {
        assert(contains_text(headers@, k) <==> (contains_text(start, k) || has_key(attrs@.subrange(0, j as int), k)));
    }
}

/// The text of the cell of `attrs` under the column `h`; see `cell_text`.
fn cell(attrs: &Vec<(String, AttrValue)>, h: &str) -> (r: String)
    ensures
        r@ == cell_text(attrs@, h@),
{
    match find_attr(attrs, h) {
        Some(i) => attrs[i].1.to_text(),
        None => String::from_str("--"),
    }
}

/// An ordered collection of rows that came back for one table.
pub struct ExecuteResult {
    pub table: String,
    pub items: Vec<ExecuteResultItem>,
}

impl ExecuteResult {
    /// An empty result for the named table.
    pub fn new(table: String) -> (r: ExecuteResult)
        ensures
            r.table == table,
            r.items@.len() == 0,
    {
        ExecuteResult { table, items: Vec::new() }
    }

    /// Appends one row.
    pub fn add_item(&mut self, item: ExecuteResultItem)
        ensures
            final(self).table == old(self).table,
            final(self).items@ == old(self).items@.push(item),
    {
        self.items.push(item);
    }

    /// Appends one row built from wire attributes; see `ExecuteResultItem::from_attrs`.
    pub fn add_attrs_row(&mut self, attrs: Vec<(String, AttributeValue)>)
        ensures
            final(self).table == old(self).table,
            final(self).items@.len() == old(self).items@.len() + 1,
            final(self).items@.subrange(0, old(self).items@.len() as int) == old(self).items@,
            final(self).items@.last().attrs@.len() == attrs@.len(),
            forall|i: int|
                0 <= i < attrs@.len() ==> (#[trigger] final(self).items@.last().attrs@[i]).0 == attrs@[i].0
                    && final(self).items@.last().attrs@[i].1.value == attrs@[i].1,
    {
        let item = ExecuteResultItem::from_attrs(attrs);
        self.items.push(item);
        assert(self.items@.subrange(0, self.items@.len() - 1) =~= old(self).items@);
    }

    /// The grid of text for this result: the headers are every attribute name
    /// that occurs in some row, each once, in order of first occurrence (see
    /// `header_seq`); each row has one cell per header (see `cell_text`).
    pub fn render(&self) -> (r: (Vec<String>, Vec<Vec<String>>))
        ensures
            distinct_texts(r.0@),
            forall|k: Seq<char>| contains_text(r.0@, k) <==> header_set(self.items@).contains(k),
            texts_view(r.0@) == header_seq(self.items@),
            r.1@.len() == self.items@.len(),
            forall|i: int|
                0 <= i < r.1@.len() ==> (#[trigger] r.1@[i])@.len() == r.0@.len() && forall|c: int|
                    0 <= c < r.0@.len() ==> (#[trigger] r.1@[i]@[c])@ == cell_text(
                        self.items@[i].attrs@,
                        r.0@[c]@,
                    ),
    {
        let mut headers: Vec<String> = Vec::new();
        let mut i: usize = 0;
        while i < self.items.len()
            invariant
                i <= self.items.len(),
                distinct_texts(headers@),
                forall|k: Seq<char>|
                    contains_text(headers@, k) <==> exists|i2: int|
                        0 <= i2 < i && has_key(#[trigger] self.items@[i2].attrs@, k),
                texts_view(headers@) == header_seq(self.items@.subrange(0, i as int)),
            decreases self.items.len() - i,
        {
            add_headers(&mut headers, &self.items[i].attrs);
            proof {
                let sub = self.items@.subrange(0, i + 1);
                assert(sub.drop_last() =~= self.items@.subrange(0, i as int));
                assert(sub.last() == self.items@[i as int]);
            }
            i = i + 1;
            proof {
                assert forall|k: Seq<char>|
                    contains_text(headers@, k) <==> exists|i2: int|
                        0 <= i2 < i && has_key(#[trigger] self.items@[i2].attrs@, k) by {
                    if has_key(self.items@[i - 1].attrs@, k) {
                        assert(0 <= i - 1 < i);
                    }
                }
            }
        }
        assert(self.items@.subrange(0, self.items@.len() as int) =~= self.items@);
        let mut rows: Vec<Vec<String>> = Vec::new();
        let mut i: usize = 0;
        while i < self.items.len()
            invariant
                i <= self.items.len(),
                rows@.len() == i,
                forall|i2: int|
                    0 <= i2 < i ==> (#[trigger] rows@[i2])@.len() == headers@.len() && forall|c: int|
                        0 <= c < headers@.len() ==> (#[trigger] rows@[i2]@[c])@ == cell_text(
                            self.items@[i2].attrs@,
                            headers@[c]@,
                        ),
            decreases self.items.len() - i,
        {
            let mut row: Vec<String> = Vec::new();
            let mut c: usize = 0;
            while c < headers.len()
                invariant
                    c <= headers.len(),
                    i < self.items.len(),
                    row@.len() == c,
                    forall|c2: int|
                        0 <= c2 < c ==> (#[trigger] row@[c2])@ == cell_text(self.items@[i as int].attrs@, headers@[c2]@),
                decreases headers.len() - c,
            {
                row.push(cell(&self.items[i].attrs, headers[c].as_str()));
                c = c + 1;
            }
            rows.push(row);
            i = i + 1;
        }
        (headers, rows)
    }
}

/// The headers of a result only grow as rows are appended: those of any
/// prefix of the rows are among those of all of them.
pub proof fn lemma_headers_grow(items: Seq<ExecuteResultItem>, n: int)
    requires
        0 <= n <= items.len(),
    ensures
        header_set(items.subrange(0, n)).subset_of(header_set(items)),
{
    assert forall|k: Seq<char>| header_set(items.subrange(0, n)).contains(k) implies header_set(items).contains(k) by {
        let i = choose|i: int| 0 <= i < n && has_key(#[trigger] items.subrange(0, n)[i].attrs@, k);
        assert(items.subrange(0, n)[i] == items[i]);
    }
}

/// A row shows `--` under every header that it has no attribute for.
pub proof fn lemma_missing_cell(attrs: Seq<(String, AttrValue)>, h: Seq<char>)
    requires
        !has_key(attrs, h),
    ensures
        cell_text(attrs, h) == "--"@,
{
    lemma_attr_of_absent(attrs, h);
}

/// The headers of two rows are the names of either row.
pub proof fn lemma_two_row_headers(a: ExecuteResultItem, b: ExecuteResultItem, k: Seq<char>)
    ensures
        header_set(seq![a, b]).contains(k) <==> (has_key(a.attrs@, k) || has_key(b.attrs@, k)),
{
    let s = seq![a, b];
    if has_key(a.attrs@, k) {
        assert(has_key(s[0].attrs@, k));
    }
    if has_key(b.attrs@, k) {
        assert(has_key(s[1].attrs@, k));
    }
}

} // verus!
