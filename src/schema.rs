//! Table metadata: attribute type tags, key definitions and key schemas.
use vstd::prelude::*;
use crate::text::{text_eq, upper_of, uppercase};

verus! {

/// The scalar types a key attribute may have.
#[derive(Debug, Clone, Copy, PartialEq, Eq, Structural)]
pub enum KeyAttrType {
    String,
    Number,
    Binary,
}

/// The key type named by an upper-case type tag.
pub open spec fn key_attr_type_of(tag: Seq<char>) -> Option<KeyAttrType> {
    if tag == "S"@ {
        Some(KeyAttrType::String)
    } else if tag == "N"@ {
        Some(KeyAttrType::Number)
    } else if tag == "B"@ {
        Some(KeyAttrType::Binary)
    } else {
        None
    }
}

impl KeyAttrType {
    /// Reads an upper-case type tag: `S`, `N` or `B`.
    pub fn from_tag(tag: &str) -> (r: Option<KeyAttrType>)
        ensures
            r == key_attr_type_of(tag@),
    {
        if text_eq(tag, "S") {
            Some(KeyAttrType::String)
        } else if text_eq(tag, "N") {
            Some(KeyAttrType::Number)
        } else if text_eq(tag, "B") {
            Some(KeyAttrType::Binary)
        } else {
            None
        }
    }

    /// Reads a type tag in any letter case.
    pub fn from_string(value: String) -> (r: Option<KeyAttrType>)
        ensures
            r == key_attr_type_of(upper_of(value@)),
    {
        let up = uppercase(value.as_str());
        KeyAttrType::from_tag(up.as_str())
    }
}

/// Every type an attribute value may have.
#[derive(Debug, Clone, Copy, PartialEq, Eq, Structural)]
pub enum AttrType {
    Null,
    Boolean,
    String,
    Number,
    Binary,
    List,
    Mapping,
    NumberSet,
    StringSet,
    BinarySet,
}

/// The attribute type named by an upper-case type tag.
pub open spec fn attr_type_of(tag: Seq<char>) -> Option<AttrType> {
    if tag == "NULL"@ {
        Some(AttrType::Null)
    } else if tag == "BOOL"@ {
        Some(AttrType::Boolean)
    } else if tag == "S"@ {
        Some(AttrType::String)
    } else if tag == "N"@ {
        Some(AttrType::Number)
    } else if tag == "B"@ {
        Some(AttrType::Binary)
    } else if tag == "L"@ {
        Some(AttrType::List)
    } else if tag == "M"@ {
        Some(AttrType::Mapping)
    } else if tag == "NS"@ {
        Some(AttrType::NumberSet)
    } else if tag == "SS"@ {
        Some(AttrType::StringSet)
    } else if tag == "BS"@ {
        Some(AttrType::BinarySet)
    } else {
        None
    }
}

impl AttrType {
    /// Reads an upper-case type tag such as `S`, `NS` or `BOOL`.
    pub fn from_tag(tag: &str) -> (r: Option<AttrType>)
        ensures
            r == attr_type_of(tag@),
    {
        if text_eq(tag, "NULL") {
            Some(AttrType::Null)
        } else if text_eq(tag, "BOOL") {
            Some(AttrType::Boolean)
        } else if text_eq(tag, "S") {
            Some(AttrType::String)
        } else if text_eq(tag, "N") {
            Some(AttrType::Number)
        } else if text_eq(tag, "B") {
            Some(AttrType::Binary)
        } else if text_eq(tag, "L") {
            Some(AttrType::List)
        } else if text_eq(tag, "M") {
            Some(AttrType::Mapping)
        } else if text_eq(tag, "NS") {
            Some(AttrType::NumberSet)
        } else if text_eq(tag, "SS") {
            Some(AttrType::StringSet)
        } else if text_eq(tag, "BS") {
            Some(AttrType::BinarySet)
        } else {
            None
        }
    }

    /// Reads a type tag in any letter case.
    pub fn from_string(value: String) -> (r: Option<AttrType>)
        ensures
            r == attr_type_of(upper_of(value@)),
    {
        let up = uppercase(value.as_str());
        AttrType::from_tag(up.as_str())
    }
}

/// One attribute-type declaration of a table: a name and a type tag.
pub struct AttributeDefinition {
    pub attribute_name: String,
    pub attribute_type: String,
}

/// One entry of a table's key schema: an attribute name and `HASH` or `RANGE`.
pub struct KeySchemaElement {
    pub attribute_name: String,
    pub key_type: String,
}

/// The part of a table's metadata that key resolution reads.
pub struct TableDescription {
    pub table_name: Option<String>,
    pub attribute_definitions: Option<Vec<AttributeDefinition>>,
    pub key_schema: Option<Vec<KeySchemaElement>>,
}

/// A key attribute: its name and scalar type.
pub struct KeyDef {
    pub name: String,
    pub attr_type: KeyAttrType,
}

/// The hash key of a table and, if it has one, its range key.
pub struct KeySchema {
    pub hash: KeyDef,
    pub range: Option<KeyDef>,
}

/// A table's metadata together with its resolved key schema.
pub struct TableDesc {
    pub desc: TableDescription,
    pub key_schema: KeySchema,
}

/// Model of a key definition.
pub type KeyDefV = (Seq<char>, KeyAttrType);

/// Model of a key schema: the hash key and the optional range key.
pub type KeySchemaV = (KeyDefV, Option<KeyDefV>);

/// Model of table metadata: name, declarations and key-schema entries.
pub type TableDescriptionV = (
    Option<Seq<char>>,
    Option<Seq<(Seq<char>, Seq<char>)>>,
    Option<Seq<(Seq<char>, Seq<char>)>>,
);

impl View for KeyDef {
    type V = KeyDefV;

    open spec fn view(&self) -> KeyDefV {
        (self.name@, self.attr_type)
    }
}

/// The model of an optional key definition.
pub open spec fn opt_key_view(k: Option<KeyDef>) -> Option<KeyDefV> {
    match k {
        Some(d) => Some(d@),
        None => None,
    }
}

impl View for KeySchema {
    type V = KeySchemaV;

    open spec fn view(&self) -> KeySchemaV {
        (self.hash@, opt_key_view(self.range))
    }
}

/// The models of attribute declarations: name and type tag.
pub open spec fn defs_view(v: Seq<AttributeDefinition>) -> Seq<(Seq<char>, Seq<char>)> {
    Seq::new(v.len(), |i: int| (v[i].attribute_name@, v[i].attribute_type@))
}

/// The models of key-schema entries: attribute name and key kind.
pub open spec fn elems_view(v: Seq<KeySchemaElement>) -> Seq<(Seq<char>, Seq<char>)> {
    Seq::new(v.len(), |i: int| (v[i].attribute_name@, v[i].key_type@))
}

impl View for TableDescription {
    type V = TableDescriptionV;

    open spec fn view(&self) -> TableDescriptionV {
        (
            match self.table_name {
                Some(n) => Some(n@),
                None => None,
            },
            match self.attribute_definitions {
                Some(v) => Some(defs_view(v@)),
                None => None,
            },
            match self.key_schema {
                Some(v) => Some(elems_view(v@)),
                None => None,
            },
        )
    }
}

impl View for TableDesc {
    type V = (TableDescriptionV, KeySchemaV);

    open spec fn view(&self) -> (TableDescriptionV, KeySchemaV) {
        (self.desc@, self.key_schema@)
    }
}

/// The key definition that a declaration yields, if its type tag names a key type.
pub open spec fn key_def_of(name: Seq<char>, tag: Seq<char>) -> Option<KeyDefV> {
    match key_attr_type_of(upper_of(tag)) {
        Some(t) => Some((name, t)),
        None => None,
    }
}

/// The key definition declared for `name`: among the declarations of that name
/// with a key type, the last one.
pub open spec fn lookup_key_def(defs: Seq<(Seq<char>, Seq<char>)>, name: Seq<char>) -> Option<KeyDefV>
    decreases defs.len(),
{
    if defs.len() == 0 {
        None
    } else if defs.last().0 == name && key_def_of(defs.last().0, defs.last().1) is Some {
        key_def_of(defs.last().0, defs.last().1)
    } else {
        lookup_key_def(defs.drop_last(), name)
    }
}

/// The attribute name of the first key-schema entry of the given kind.
pub open spec fn first_key_name(elems: Seq<(Seq<char>, Seq<char>)>, kind: Seq<char>) -> Option<Seq<char>>
    decreases elems.len(),
{
    if elems.len() == 0 {
        None
    } else if elems[0].1 == kind {
        Some(elems[0].0)
    } else {
        first_key_name(elems.drop_first(), kind)
    }
}

/// The key definition that the first entry of the given kind resolves to.
pub open spec fn resolve_key(
    defs: Seq<(Seq<char>, Seq<char>)>,
    elems: Option<Seq<(Seq<char>, Seq<char>)>>,
    kind: Seq<char>,
) -> Option<KeyDefV> {
    match elems {
        Some(es) => match first_key_name(es, kind) {
            Some(n) => lookup_key_def(defs, n),
            None => None,
        },
        None => None,
    }
}

/// The key schema of a table, if its metadata gives it a usable hash key.
pub open spec fn schema_of(d: TableDescriptionV) -> Option<KeySchemaV> {
    match d.1 {
        Some(defs) => match resolve_key(defs, d.2, "HASH"@) {
            Some(h) => Some((h, resolve_key(defs, d.2, "RANGE"@))),
            None => None,
        },
        None => None,
    }
}

impl KeyDef {
    /// The key definition of a declaration whose type tag names a key type.
    pub fn from_attr_def(v: AttributeDefinition) -> (r: Option<KeyDef>)
        ensures
            opt_key_view(r) == key_def_of(v.attribute_name@, v.attribute_type@),
    {
        match KeyAttrType::from_string(v.attribute_type) {
            Some(t) => Some(KeyDef { name: v.attribute_name, attr_type: t }),
            None => None,
        }
    }

    /// A copy with the same contents.
    pub fn copy(&self) -> (r: KeyDef)
        ensures
            r@ == self@,
    {
        KeyDef { name: self.name.clone(), attr_type: self.attr_type }
    }
}

fn copy_opt_key(k: &Option<KeyDef>) -> (r: Option<KeyDef>)
    ensures
        opt_key_view(r) == opt_key_view(*k),
{
    match k {
        Some(d) => Some(d.copy()),
        None => None,
    }
}

impl AttributeDefinition {
    /// A copy with the same contents.
    pub fn copy(&self) -> (r: AttributeDefinition)
        ensures
            r.attribute_name == self.attribute_name,
            r.attribute_type == self.attribute_type,
    {
        AttributeDefinition {
            attribute_name: self.attribute_name.clone(),
            attribute_type: self.attribute_type.clone(),
        }
    }
}

impl KeySchemaElement {
    /// A copy with the same contents.
    pub fn copy(&self) -> (r: KeySchemaElement)
        ensures
            r.attribute_name == self.attribute_name,
            r.key_type == self.key_type,
    {
        KeySchemaElement { attribute_name: self.attribute_name.clone(), key_type: self.key_type.clone() }
    }
}

fn copy_defs(v: &Vec<AttributeDefinition>) -> (r: Vec<AttributeDefinition>)
    ensures
        defs_view(r@) == defs_view(v@),
{
    let mut r: Vec<AttributeDefinition> = Vec::new();
    let mut i: usize = 0;
    while i < v.len()
        invariant
            i <= v.len(),
            r.len() == i,
            forall|j: int| 0 <= j < i ==> (#[trigger] r@[j]).attribute_name == v@[j].attribute_name
                && r@[j].attribute_type == v@[j].attribute_type,
        decreases v.len() - i,
    {
        r.push(v[i].copy());
        i = i + 1;
    }
    assert(defs_view(r@) =~= defs_view(v@));
    r
}

fn copy_elems(v: &Vec<KeySchemaElement>) -> (r: Vec<KeySchemaElement>)
    ensures
        elems_view(r@) == elems_view(v@),
{
    let mut r: Vec<KeySchemaElement> = Vec::new();
    let mut i: usize = 0;
    while i < v.len()
        invariant
            i <= v.len(),
            r.len() == i,
            forall|j: int| 0 <= j < i ==> (#[trigger] r@[j]).attribute_name == v@[j].attribute_name
                && r@[j].key_type == v@[j].key_type,
        decreases v.len() - i,
    {
        r.push(v[i].copy());
        i = i + 1;
    }
    assert(elems_view(r@) =~= elems_view(v@));
    r
}

impl TableDescription {
    /// A copy with the same contents.
    pub fn copy(&self) -> (r: TableDescription)
        ensures
            r@ == self@,
    {
        let table_name = match &self.table_name {
            Some(n) => Some(n.clone()),
            None => None,
        };
        let attribute_definitions = match &self.attribute_definitions {
            Some(v) => Some(copy_defs(v)),
            None => None,
        };
        let key_schema = match &self.key_schema {
            Some(v) => Some(copy_elems(v)),
            None => None,
        };
        TableDescription { table_name, attribute_definitions, key_schema }
    }
}

/// The key definition declared for `name` among `defs`; see `lookup_key_def`.
fn find_key_def(defs: &Vec<AttributeDefinition>, name: &String) -> (r: Option<KeyDef>)
    ensures
        opt_key_view(r) == lookup_key_def(defs_view(defs@), name@),
{
    let mut i: usize = defs.len();
    assert(defs@.subrange(0, i as int) =~= defs@);
    while i > 0
        invariant
            i <= defs.len(),
            lookup_key_def(defs_view(defs@), name@) == lookup_key_def(
                defs_view(defs@.subrange(0, i as int)),
                name@,
            ),
        decreases i,
    {
        let d = &defs[i - 1];
        proof {
            let s = defs_view(defs@.subrange(0, i as int));
            assert(s.drop_last() =~= defs_view(defs@.subrange(0, i - 1)));
            assert(s.last() == (d.attribute_name@, d.attribute_type@));
        }
        if text_eq(d.attribute_name.as_str(), name.as_str()) {
            let k = KeyDef::from_attr_def(d.copy());
            if k.is_some() {
                return k;
            }
        }
        i = i - 1;
    }
    None
}

/// The position of the first key-schema entry of kind `kind`.
fn find_key_name(elems: &Vec<KeySchemaElement>, kind: &str) -> (r: Option<usize>)
    ensures
        match r {
            Some(i) => i < elems.len() && first_key_name(elems_view(elems@), kind@) == Some(
                elems@[i as int].attribute_name@,
            ),
            None => first_key_name(elems_view(elems@), kind@) is None,
        },
{
    let mut i: usize = 0;
    assert(elems@.subrange(0, elems.len() as int) =~= elems@);
    while i < elems.len()
        invariant
            i <= elems.len(),
            first_key_name(elems_view(elems@), kind@) == first_key_name(
                elems_view(elems@.subrange(i as int, elems.len() as int)),
                kind@,
            ),
        decreases elems.len() - i,
    {
        proof {
            let s = elems_view(elems@.subrange(i as int, elems.len() as int));
            assert(s.drop_first() =~= elems_view(elems@.subrange(i + 1, elems.len() as int)));
            assert(s[0] == (elems@[i as int].attribute_name@, elems@[i as int].key_type@));
        }
        if text_eq(elems[i].key_type.as_str(), kind) {
            return Some(i);
        }
        i = i + 1;
    }
    proof {
        assert(elems_view(elems@.subrange(i as int, elems.len() as int)).len() == 0);
    }
    None
}

fn find_key(defs: &Vec<AttributeDefinition>, elems: &Option<Vec<KeySchemaElement>>, kind: &str) -> (r: Option<KeyDef>)
    ensures
        opt_key_view(r) == resolve_key(
            defs_view(defs@),
            match elems {
                Some(v) => Some(elems_view(v@)),
                None => None,
            },
            kind@,
        ),
{
    match elems {
        Some(es) => match find_key_name(es, kind) {
            Some(i) => find_key_def(defs, &es[i].attribute_name),
            None => None,
        },
        None => None,
    }
}

impl TableDesc {
    /// Resolves the key schema of a table from its metadata. The hash key is
    /// the first `HASH` entry, the range key the first `RANGE` entry, each
    /// looked up among the declarations whose type names a key type; there is
    /// no result when the hash key does not resolve.
    pub fn from_desc(desc: TableDescription) -> (r: Option<TableDesc>)
        ensures
            match r {
                Some(t) => t.desc == desc && schema_of(desc@) == Some(t.key_schema@),
                None => schema_of(desc@) is None,
            },
    {
        match &desc.attribute_definitions {
            Some(ads) => {
                let hash_key = find_key(ads, &desc.key_schema, "HASH");
                let range_key = find_key(ads, &desc.key_schema, "RANGE");
                match hash_key {
                    Some(hk) => Some(
                        TableDesc { desc: desc, key_schema: KeySchema { hash: hk, range: range_key } },
                    ),
                    None => None,
                }
            },
            None => None,
        }
    }

    /// A copy with the same contents.
    pub fn copy(&self) -> (r: TableDesc)
        ensures
            r@ == self@,
    {
        TableDesc {
            desc: self.desc.copy(),
            key_schema: KeySchema {
                hash: self.key_schema.hash.copy(),
                range: copy_opt_key(&self.key_schema.range),
            },
        }
    }
}

/// No declaration of `defs` has a type tag that names a key type.
pub open spec fn no_key_types(defs: Seq<(Seq<char>, Seq<char>)>) -> bool {
    forall|i: int| 0 <= i < defs.len() ==> key_attr_type_of(upper_of(#[trigger] defs[i].1)) is None
}

proof fn lemma_lookup_none(defs: Seq<(Seq<char>, Seq<char>)>, name: Seq<char>)
    requires
        no_key_types(defs),
    ensures
        lookup_key_def(defs, name) is None,
    decreases defs.len(),
{
    if defs.len() > 0 {
        assert(key_attr_type_of(upper_of(defs[defs.len() - 1].1)) is None);
        assert forall|i: int| 0 <= i < defs.drop_last().len() implies key_attr_type_of(upper_of(#[trigger] defs.drop_last()[i].1)) is None by {
            assert(defs.drop_last()[i] == defs[i]);
        }
        lemma_lookup_none(defs.drop_last(), name);
    }
}

/// Metadata whose declarations all have type tags that name no key type
/// gives no key schema.
pub proof fn lemma_no_key_types_no_schema(d: TableDescriptionV)
    requires
        d.1 is Some,
        no_key_types(d.1->0),
    ensures
        schema_of(d) is None,
{
    match d.2 {
        Some(es) => match first_key_name(es, "HASH"@) {
            Some(n) => lemma_lookup_none(d.1->0, n),
            None => {},
        },
        None => {},
    }
}

} // verus!
