//! Statement dispatch. Each store call is made by the caller: `execute` names
//! the first call a statement needs, and `resume` takes the store's reply and
//! names the next call or gives the outcome.
use vstd::prelude::*;
use vstd::string::StringExecFns;
use crate::attr_value::{AttributeValue, string_attr};
use crate::result::{ExecuteResult, ExecuteResultItem};
use crate::schema::{TableDesc, TableDescription, TableDescriptionV, KeySchemaV, schema_of, no_key_types, lemma_no_key_types_no_schema};
use crate::text::text_eq;

verus! {

/// A field named in a select list.
pub struct Field {
    pub name: String,
}

/// The fields a select asks for.
pub enum FieldExpression {
    AllFields,
    Fields(Vec<Field>),
}

/// A select over one table.
pub struct SelectStatement {
    pub table: String,
    pub fields: FieldExpression,
}

/// A parsed statement.
pub enum Query {
    ShowTables,
    Select(SelectStatement),
    Unsupported,
}

/// A failure reported by the store.
pub struct StoreError {
    pub message: String,
}

/// Why a statement produced no result.
pub enum ExecuteError {
    DynamoDBListTableError(StoreError),
    DynamoDBScanError(StoreError),
    DynamoDBDescribeTableError(StoreError),
    SchemaResolutionFailed,
    InvalidQuery,
}

/// The input of a scan: the table, and the attributes to return (all when absent).
pub struct ScanInput {
    pub table_name: String,
    pub attributes_to_get: Option<Vec<String>>,
}

/// A call to make on the store.
pub enum StoreRequest {
    ListTables,
    DescribeTable(String),
    Scan(ScanInput),
}

/// The store's answer to a `StoreRequest`.
pub enum StoreReply {
    TableNames(Result<Option<Vec<String>>, StoreError>),
    Table(Result<Option<TableDescription>, StoreError>),
    Items(Result<Option<Vec<Vec<(String, AttributeValue)>>>, StoreError>),
}

/// What a statement waits for while a store call is made.
pub enum Pending {
    ShowTables,
    Describe(SelectStatement),
    Scan(String),
}

/// The next thing to do: make a store call and resume, or stop with the outcome.
pub enum Step {
    Call(StoreRequest, Pending),
    Done(Result<ExecuteResult, ExecuteError>),
}

/// Executes statements, keeping the metadata of each table it has resolved.
pub struct Executor {
    tables: Vec<(String, TableDesc)>,
}

/// The entry for `name` in a cache: its first one.
pub open spec fn cache_lookup(s: Seq<(String, TableDesc)>, name: Seq<char>) -> Option<(TableDescriptionV, KeySchemaV)>
    decreases s.len(),
{
    if s.len() == 0 {
        None
    } else if s[0].0@ == name {
        Some(s[0].1@)
    } else {
        cache_lookup(s.drop_first(), name)
    }
}

/// The names a select asks for, if it lists them.
pub open spec fn field_names(f: FieldExpression) -> Option<Seq<Seq<char>>> {
    match f {
        FieldExpression::AllFields => None,
        FieldExpression::Fields(v) => Some(Seq::new(v@.len(), |i: int| v@[i].name@)),
    }
}

/// The texts of an optional list of strings.
pub open spec fn texts_of(v: Option<Vec<String>>) -> Option<Seq<Seq<char>>> {
    match v {
        Some(v) => Some(Seq::new(v@.len(), |i: int| v@[i]@)),
        None => None,
    }
}

/// `input` scans the table of `s`, returning the fields it lists.
pub open spec fn scans_for(s: SelectStatement, input: ScanInput) -> bool {
    input.table_name@ == s.table@ && texts_of(input.attributes_to_get) == field_names(s.fields)
}

/// `r` is what a list-tables reply gives: a result named `tables` with one row
/// per name, holding the name under `name`.
pub open spec fn shows_tables(reply: Result<Option<Vec<String>>, StoreError>, r: Result<ExecuteResult, ExecuteError>) -> bool {
    match reply {
        Err(e) => r == Err::<ExecuteResult, ExecuteError>(ExecuteError::DynamoDBListTableError(e)),
        Ok(names) => r matches Ok(res) && res.table@ == "tables"@ && {
            let ns: Seq<String> = match names { Some(v) => v@, None => Seq::empty() };
            &&& res.items@.len() == ns.len()
            &&& forall|i: int| 0 <= i < ns.len() ==> {
                &&& (#[trigger] res.items@[i]).attrs@.len() == 1
                &&& res.items@[i].attrs@[0].0@ == "name"@
                &&& res.items@[i].attrs@[0].1.value == string_attr(ns[i])
            }
        },
    }
}

/// `r` is what a scan reply gives for `table`: one row per item, holding the
/// item's attributes in wire form.
pub open spec fn scanned(
    table: Seq<char>,
    reply: Result<Option<Vec<Vec<(String, AttributeValue)>>>, StoreError>,
    r: Result<ExecuteResult, ExecuteError>,
) -> bool {
    match reply {
        Err(e) => r == Err::<ExecuteResult, ExecuteError>(ExecuteError::DynamoDBScanError(e)),
        Ok(items) => r matches Ok(res) && res.table@ == table && {
            let its: Seq<Vec<(String, AttributeValue)>> = match items { Some(v) => v@, None => Seq::empty() };
            &&& res.items@.len() == its.len()
            &&& forall|i: int| 0 <= i < its.len() ==> {
                &&& (#[trigger] res.items@[i]).attrs@.len() == its[i]@.len()
                &&& forall|j: int| 0 <= j < its[i]@.len() ==> {
                    &&& (#[trigger] res.items@[i].attrs@[j]).0 == its[i]@[j].0
                    &&& res.items@[i].attrs@[j].1.value == its[i]@[j].1
                }
            }
        },
    }
}

/// How a describe-table reply for `table` turns the cache `before` into
/// `after` with outcome `r`: a usable description is cached and returned;
/// otherwise the cache stays as it was.
pub open spec fn resolves(
    before: Executor,
    after: Executor,
    table: Seq<char>,
    reply: Result<Option<TableDescription>, StoreError>,
    r: Result<TableDesc, ExecuteError>,
) -> bool {
    match reply {
        Err(e) => r == Err::<TableDesc, ExecuteError>(ExecuteError::DynamoDBDescribeTableError(e)) && after.same_cache(before),
        Ok(None) => r == Err::<TableDesc, ExecuteError>(ExecuteError::SchemaResolutionFailed) && after.same_cache(before),
        Ok(Some(d)) => match schema_of(d@) {
            None => r == Err::<TableDesc, ExecuteError>(ExecuteError::SchemaResolutionFailed) && after.same_cache(before),
            Some(ks) => r matches Ok(t) && t@ == (d@, ks) && after.cached(table) == Some(t@) && forall|n: Seq<char>|
                n != table ==> #[trigger] after.cached(n) == before.cached(n),
        },
    }
}

impl Executor {
    /// The cached metadata of table `name`.
    pub closed spec fn cached(&self, name: Seq<char>) -> Option<(TableDescriptionV, KeySchemaV)> {
        cache_lookup(self.tables@, name)
    }

    /// Both executors hold the same metadata for every table.
    pub open spec fn same_cache(&self, other: Executor) -> bool {
        forall|n: Seq<char>| #[trigger] self.cached(n) == other.cached(n)
    }

    /// Whether a select on `table` must first describe the table.
    pub open spec fn needs_describe(&self, table: Seq<char>) -> bool {
        self.cached(table) is None
    }

    /// An executor with nothing cached.
    pub fn new() -> (r: Executor)
        ensures
            forall|n: Seq<char>| #[trigger] r.cached(n) is None,
    {
        Executor { tables: Vec::new() }
    }

    /// The cached metadata of `table`, without any store call.
    pub fn load_table_desc(&self, table: &str) -> (r: Option<TableDesc>)
        ensures
            match r {
                Some(t) => self.cached(table@) == Some(t@),
                None => self.cached(table@) is None,
            },
    {
        let mut i: usize = 0;
        assert(self.tables@.subrange(0, self.tables@.len() as int) =~= self.tables@);
        while i < self.tables.len()
            invariant
                i <= self.tables.len(),
                self.cached(table@) == cache_lookup(self.tables@.subrange(i as int, self.tables@.len() as int), table@),
            decreases self.tables.len() - i,
        {
            proof {
                let s = self.tables@.subrange(i as int, self.tables@.len() as int);
                assert(s.drop_first() =~= self.tables@.subrange(i + 1, self.tables@.len() as int));
                assert(s[0] == self.tables@[i as int]);
            }
            if text_eq(self.tables[i].0.as_str(), table) {
                return Some(self.tables[i].1.copy());
            }
            i = i + 1;
        }
        None
    }

    /// Takes the store's answer to describing `table`, and caches the
    /// resolved metadata; see `resolves`.
    pub fn store_table_desc(&mut self, table: String, reply: Result<Option<TableDescription>, StoreError>) -> (r: Result<TableDesc, ExecuteError>)
        ensures
            resolves(*old(self), *final(self), table@, reply, r),
    {
        match reply {
            Err(e) => Err(ExecuteError::DynamoDBDescribeTableError(e)),
            Ok(None) => Err(ExecuteError::SchemaResolutionFailed),
            Ok(Some(desc)) => match TableDesc::from_desc(desc) {
                Some(d) => {
                    let ghost before = self.tables@;
                    let c = d.copy();
                    self.tables.insert(0, (table, c));
                    proof {
                        assert(self.tables@.drop_first() =~= before);
                    }
                    Ok(d)
                },
                None => Err(ExecuteError::SchemaResolutionFailed),
            },
        }
    }

    /// The first step of a statement. A select of a table whose metadata is
    /// cached scans at once; any other first describes the table.
    pub fn execute(&self, q: Query) -> (r: Step)
        ensures
            match q {
                Query::ShowTables => r matches Step::Call(StoreRequest::ListTables, Pending::ShowTables),
                Query::Select(s) => self.select_step(s, r),
                Query::Unsupported => r matches Step::Done(Err(ExecuteError::InvalidQuery)),
            },
    {
        match q {
            Query::ShowTables => Step::Call(StoreRequest::ListTables, Pending::ShowTables),
            Query::Select(s) => self.execute_select(s),
            Query::Unsupported => Step::Done(Err(ExecuteError::InvalidQuery)),
        }
    }

    /// `r` is the first step of select `s`.
    pub open spec fn select_step(&self, s: SelectStatement, r: Step) -> bool {
        if self.needs_describe(s.table@) {
            r matches Step::Call(StoreRequest::DescribeTable(t), Pending::Describe(p)) && t == s.table && p == s
        } else {
            r matches Step::Call(StoreRequest::Scan(input), Pending::Scan(t)) && scans_for(s, input) && t == s.table
        }
    }

    /// The first step of a select; see `select_step`.
    pub fn execute_select(&self, s: SelectStatement) -> (r: Step)
        ensures
            self.select_step(s, r),
    {
        match self.load_table_desc(s.table.as_str()) {
            Some(_) => {
                let input = Executor::scan_input(&s);
                Step::Call(StoreRequest::Scan(input), Pending::Scan(s.table))
            },
            None => Step::Call(StoreRequest::DescribeTable(s.table.clone()), Pending::Describe(s)),
        }
    }

    /// The step after the store answered the call that `pending` waits for.
    /// A reply of another kind than the call asked for ends with `InvalidQuery`.
    pub fn resume(&mut self, pending: Pending, reply: StoreReply) -> (r: Step)
        ensures
            match (pending, reply) {
                (Pending::ShowTables, StoreReply::TableNames(x)) => final(self).same_cache(*old(self))
                    && (r matches Step::Done(o) && shows_tables(x, o)),
                (Pending::Scan(t), StoreReply::Items(x)) => final(self).same_cache(*old(self))
                    && (r matches Step::Done(o) && scanned(t@, x, o)),
                (Pending::Describe(s), StoreReply::Table(x)) => exists|o: Result<TableDesc, ExecuteError>| {
                    &&& #[trigger] resolves(*old(self), *final(self), s.table@, x, o)
                    &&& match o {
                        Ok(_) => (r matches Step::Call(StoreRequest::Scan(input), Pending::Scan(t)) && scans_for(s, input)
                            && t == s.table),
                        Err(e) => r == Step::Done(Err(e)),
                    }
                },
                _ => final(self).same_cache(*old(self)) && (r matches Step::Done(Err(ExecuteError::InvalidQuery))),
            },
    {
        match (pending, reply) {
            (Pending::ShowTables, StoreReply::TableNames(x)) => Step::Done(Executor::execute_show_tables(x)),
            (Pending::Scan(t), StoreReply::Items(x)) => Step::Done(Executor::execute_scan(t, x)),
            (Pending::Describe(s), StoreReply::Table(x)) => {
                let o = self.store_table_desc(s.table.clone(), x);
                match o {
                    Ok(_) => {
                        let input = Executor::scan_input(&s);
                        Step::Call(StoreRequest::Scan(input), Pending::Scan(s.table))
                    },
                    Err(e) => Step::Done(Err(e)),
                }
            },
            _ => Step::Done(Err(ExecuteError::InvalidQuery)),
        }
    }
}

impl Executor {
    /// The scan input of a select: its table, and the fields it lists.
    pub fn scan_input(s: &SelectStatement) -> (r: ScanInput)
        ensures
            scans_for(*s, r),
    {
        let attributes_to_get = match &s.fields {
            FieldExpression::AllFields => None,
            FieldExpression::Fields(v) => {
                let mut names: Vec<String> = Vec::new();
                let mut i: usize = 0;
                while i < v.len()
                    invariant
                        i <= v.len(),
                        names@.len() == i,
                        forall|j: int| 0 <= j < i ==> (#[trigger] names@[j])@ == v@[j].name@,
                    decreases v.len() - i,
                {
                    names.push(v[i].name.clone());
                    i = i + 1;
                }
                assert(Seq::new(names@.len(), |j: int| names@[j]@) =~= Seq::new(v@.len(), |j: int| v@[j].name@));
                Some(names)
            },
        };
        ScanInput { table_name: s.table.clone(), attributes_to_get }
    }

    /// The result of a list-tables reply; see `shows_tables`.
    pub fn execute_show_tables(reply: Result<Option<Vec<String>>, StoreError>) -> (r: Result<ExecuteResult, ExecuteError>)
        ensures
            shows_tables(reply, r),
    {
        match reply {
            Err(e) => Err(ExecuteError::DynamoDBListTableError(e)),
            Ok(names) => {
                let mut res = ExecuteResult::new(String::from_str("tables"));
                match names {
                    Some(mut v) => {
                        let ghost ns = v@;
                        let mut i: usize = 0;
                        assert(ns.len() == v.len());
                        while v.len() > 0
                            invariant
                                ns.len() <= usize::MAX,
                                i + v@.len() == ns.len(),
                                v@ == ns.subrange(i as int, ns.len() as int),
                                res.table@ == "tables"@,
                                res.items@.len() == i,
                                forall|k: int| 0 <= k < i ==> {
                                    &&& (#[trigger] res.items@[k]).attrs@.len() == 1
                                    &&& res.items@[k].attrs@[0].0@ == "name"@
                                    &&& res.items@[k].attrs@[0].1.value == string_attr(ns[k])
                                },
                            decreases v.len(),
                        {
                            let name = v.remove(0);
                            let mut item = ExecuteResultItem::new();
                            item.attrs.push((String::from_str("name"), crate::attr_value::AttrValue::from_string(name)));
                            res.add_item(item);
                            i = i + 1;
                            assert(v@ =~= ns.subrange(i as int, ns.len() as int));
                        }
                    },
                    None => {},
                }
                Ok(res)
            },
        }
    }

    /// The result of a scan reply for `table`; see `scanned`.
    pub fn execute_scan(table: String, reply: Result<Option<Vec<Vec<(String, AttributeValue)>>>, StoreError>) -> (r: Result<ExecuteResult, ExecuteError>)
        ensures
            scanned(table@, reply, r),
    {
        match reply {
            Err(e) => Err(ExecuteError::DynamoDBScanError(e)),
            Ok(items) => {
                let mut res = ExecuteResult::new(table);
                match items {
                    Some(mut v) => {
                        let ghost its = v@;
                        let mut i: usize = 0;
                        assert(its.len() == v.len());
                        while v.len() > 0
                            invariant
                                its.len() <= usize::MAX,
                                i + v@.len() == its.len(),
                                v@ == its.subrange(i as int, its.len() as int),
                                res.table@ == table@,
                                res.items@.len() == i,
                                forall|k: int| 0 <= k < i ==> {
                                    &&& (#[trigger] res.items@[k]).attrs@.len() == its[k]@.len()
                                    &&& forall|j: int| 0 <= j < its[k]@.len() ==> {
                                        &&& (#[trigger] res.items@[k].attrs@[j]).0 == its[k]@[j].0
                                        &&& res.items@[k].attrs@[j].1.value == its[k]@[j].1
                                    }
                                },
                            decreases v.len(),
                        {
                            let attrs = v.remove(0);
                            let ghost a = attrs;
                            let ghost prev = res.items@;
                            res.add_attrs_row(attrs);
                            proof {
                                assert(a == its[i as int]);
                                assert(res.items@[i as int] == res.items@.last());
                                assert forall|j: int| 0 <= j < its[i as int]@.len() implies
                                    (#[trigger] res.items@[i as int].attrs@[j]).0 == its[i as int]@[j].0
                                    && res.items@[i as int].attrs@[j].1.value == its[i as int]@[j].1 by {
                                    assert(res.items@.last().attrs@[j] == res.items@[i as int].attrs@[j]);
                                }
                                assert forall|k: int| 0 <= k < i implies res.items@[k] == prev[k] by {
                                    assert(res.items@.subrange(0, prev.len() as int)[k] == res.items@[k]);
                                }
                                assert forall|k: int| 0 <= k < i + 1 implies {
                                    &&& (#[trigger] res.items@[k]).attrs@.len() == its[k]@.len()
                                    &&& forall|j: int| 0 <= j < its[k]@.len() ==> {
                                        &&& (#[trigger] res.items@[k].attrs@[j]).0 == its[k]@[j].0
                                        &&& res.items@[k].attrs@[j].1.value == its[k]@[j].1
                                    }
                                } by {
                                    if k < i {
                                        assert(res.items@[k] == prev[k]);
                                    }
                                }
                            }
                            i = i + 1;
                            assert(v@ =~= its.subrange(i as int, its.len() as int));
                        }
                    },
                    None => {},
                }
                Ok(res)
            },
        }
    }
}

/// Once a describe reply has resolved a table, its metadata is cached: a
/// later select on it scans without describing it again, and a lookup gives
/// the same metadata back.
pub proof fn lemma_describe_once(
    before: Executor,
    after: Executor,
    table: Seq<char>,
    reply: Result<Option<TableDescription>, StoreError>,
    d: TableDesc,
)
    requires
        resolves(before, after, table, reply, Ok(d)),
    ensures
        !after.needs_describe(table),
        after.cached(table) == Some(d@),
{
}

/// A select that lists fields scans with exactly those fields, in order, and
/// only the select's table; one that lists none asks for every attribute.
pub proof fn lemma_projection(e: Executor, s: SelectStatement, r: Step)
    requires
        e.select_step(s, r),
        !e.needs_describe(s.table@),
    ensures
        r is Call && r->Call_0 is Scan,
        r->Call_0->Scan_0.table_name@ == s.table@,
        s.fields is AllFields ==> r->Call_0->Scan_0.attributes_to_get is None,
        s.fields is Fields ==> r->Call_0->Scan_0.attributes_to_get is Some,
        s.fields is Fields ==> r->Call_0->Scan_0.attributes_to_get->Some_0@.len() == s.fields->Fields_0@.len(),
        s.fields is Fields ==> forall|i: int|
            0 <= i < s.fields->Fields_0@.len() ==> (#[trigger] r->Call_0->Scan_0.attributes_to_get->Some_0@[i])@
                == s.fields->Fields_0@[i].name@,
{
    let input = r->Call_0->Scan_0;
    assert(scans_for(s, input));
    if s.fields is Fields {
        let v = s.fields->Fields_0;
        let names = input.attributes_to_get->Some_0;
        let tv = texts_of(input.attributes_to_get)->Some_0;
        let fv = field_names(s.fields)->Some_0;
        assert(tv == fv);
        assert(tv.len() == names@.len());
        assert(fv.len() == v@.len());
        assert forall|i: int| 0 <= i < v@.len() implies (#[trigger] names@[i])@ == v@[i].name@ by {
            assert(tv[i] == names@[i]@);
            assert(fv[i] == v@[i].name@);
        }
    }
}

/// A describe reply whose declarations all have type tags that name no key
/// type fails with `SchemaResolutionFailed` and caches nothing.
pub proof fn lemma_key_schema_failure(
    before: Executor,
    after: Executor,
    table: Seq<char>,
    reply: Result<Option<TableDescription>, StoreError>,
    r: Result<TableDesc, ExecuteError>,
)
    requires
        resolves(before, after, table, reply, r),
        reply matches Ok(Some(d)) && d@.1 is Some && no_key_types(d@.1->0),
    ensures
        r matches Err(ExecuteError::SchemaResolutionFailed),
        after.same_cache(before),
        after.needs_describe(table) == before.needs_describe(table),
{
    let d = reply->Ok_0->Some_0;
    lemma_no_key_types_no_schema(d@);
    assert(after.cached(table) == before.cached(table));
}

} // verus!
