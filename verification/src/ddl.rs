//! Helpers of procedures that define tables.
use crate::hash_maps::{entries_of, lists_map};
use crate::meta_error::Error;
use crate::string_map::StringMap;
use crate::text::{lemma_split_joined, lemma_split_without, split, split_text, views};
use std::collections::HashMap;
use vstd::prelude::*;
use vstd::string::*;

verus! {

broadcast use vstd::std_specs::hash::group_hash_axioms;

/// The engine that stores logical tables.
pub const METRIC_ENGINE: &'static str = "metric";

/// The table option that names the physical table of a logical one.
pub const LOGICAL_TABLE_METADATA_KEY: &'static str = "on_physical_table";

/// The path under which the regions of a schema are stored.
pub open spec fn storage_path(catalog: Seq<char>, schema: Seq<char>) -> Seq<char> {
    catalog.push('/') + schema
}

/// The path under which the regions of a schema are stored.
pub fn region_storage_path(catalog: &str, schema: &str) -> (path: String)
    ensures
        path@ == storage_path(catalog@, schema@),
{
    proof {
        reveal_strlit("/");
    }
    let mut path = catalog.to_owned();
    path.append("/");
    path.append(schema);
    assert(catalog@ + "/"@ =~= catalog@.push('/'));
    path
}

/// Extracts catalog and schema from the path that was created by [`region_storage_path`]: what
/// stands before the first slash, and what stands between it and the next.
pub fn get_catalog_and_schema(path: &str) -> (names: Option<(String, String)>)
    ensures
        match names {
            Some((catalog, schema)) => {
                let parts = split(path@, '/');
                parts.len() >= 2 && catalog@ == parts[0] && schema@ == parts[1]
            },
            None => split(path@, '/').len() < 2,
        },
{
    let parts = split_text(path, '/');
    if parts.len() < 2 {
        return None;
    }
    let ghost names = views(parts@);
    assert(names[0] == parts@[0]@ && names[1] == parts@[1]@);
    Some((parts[0].clone(), parts[1].clone()))
}

/// A path gives back the catalog and the schema that it was made from, as long as neither name
/// has a slash in it.
pub proof fn law_storage_path_gives_back_its_names(catalog: Seq<char>, schema: Seq<char>)
    requires
        !catalog.contains('/'),
        !schema.contains('/'),
    ensures
        split(storage_path(catalog, schema), '/') == seq![catalog, schema],
{
    lemma_split_joined(catalog, '/', schema);
    lemma_split_without(catalog, '/');
    lemma_split_without(schema, '/');
    assert(seq![catalog] + seq![schema] =~= seq![catalog, schema]);
}

/// The full name of a table.
#[derive(Debug, PartialEq, Eq)]
pub struct TableName {
    pub catalog: String,
    pub schema: String,
    pub table: String,
}

/// The parts of the full name of a table.
pub struct TableNameParts {
    pub catalog: Seq<char>,
    pub schema: Seq<char>,
    pub table: Seq<char>,
}

impl View for TableName {
    type V = TableNameParts;

    open spec fn view(&self) -> TableNameParts {
        TableNameParts { catalog: self.catalog@, schema: self.schema@, table: self.table@ }
    }
}

/// The key under which a table name is stored.
pub open spec fn name_key(name: TableNameParts) -> Seq<char> {
    "__table_name/"@ + name.catalog + "/"@ + name.schema + "/"@ + name.table
}

/// A table name as it is shown: catalog, schema and table with dots between them.
pub open spec fn name_reference(name: TableNameParts) -> Seq<char> {
    name.catalog + "."@ + name.schema + "."@ + name.table
}

impl TableName {
    /// The key under which the name is stored.
    pub fn key(&self) -> (key: String)
        ensures
            key@ == name_key(self@),
    {
        let mut key = "__table_name/".to_owned();
        key.append(self.catalog.as_str());
        key.append("/");
        key.append(self.schema.as_str());
        key.append("/");
        key.append(self.table.as_str());
        key
    }

    /// The name as it is shown.
    pub fn reference(&self) -> (text: String)
        ensures
            text@ == name_reference(self@),
    {
        let mut text = self.catalog.clone();
        text.append(".");
        text.append(self.schema.as_str());
        text.append(".");
        text.append(self.table.as_str());
        text
    }

    /// Whether two names are the same.
    pub fn same(&self, other: &TableName) -> (yes: bool)
        ensures
            yes == (self@ == other@),
    {
        self.catalog == other.catalog && self.schema == other.schema && self.table == other.table
    }
}

/// A table to be created.
#[derive(Debug)]
pub struct CreateTable {
    pub catalog_name: String,
    pub schema_name: String,
    pub engine: String,
    pub table_options: StringMap<String>,
}

/// The task of creating a table.
#[derive(Debug)]
pub struct CreateTableTask {
    pub create_table: CreateTable,
}

impl CreateTableTask {
    /// Whether the table is stored by the metric engine.
    pub open spec fn is_metric(self) -> bool {
        self.create_table.engine@ == METRIC_ENGINE@
    }

    /// Whether the table names its physical table.
    pub open spec fn is_logical(self) -> bool {
        self.create_table.table_options@.contains_key(LOGICAL_TABLE_METADATA_KEY@)
    }

    /// The physical table of the table.
    pub open spec fn physical_table(self) -> TableNameParts {
        TableNameParts {
            catalog: self.create_table.catalog_name@,
            schema: self.create_table.schema_name@,
            table: self.create_table.table_options@[LOGICAL_TABLE_METADATA_KEY@]@,
        }
    }
}

/// Whether the first `n` tasks create logical tables of the physical table of the first of them.
pub open spec fn tasks_agree(tasks: Seq<CreateTableTask>, n: int) -> bool {
    forall|j: int|
        0 <= j < n ==> (#[trigger] tasks[j]).is_metric() && tasks[j].is_logical()
            && tasks[j].physical_table() == tasks[0].physical_table()
}

/// What is not supported of task `i`, where the tasks before it agree.
pub open spec fn unsupported_operation(tasks: Seq<CreateTableTask>, i: int) -> Seq<char> {
    let task = tasks[i];
    if !task.is_metric() {
        "create table with engine "@ + task.create_table.engine@
    } else if !task.is_logical() {
        "create table without table options "@ + LOGICAL_TABLE_METADATA_KEY@
    } else {
        "create table with different physical table name "@ + name_key(tasks[0].physical_table())
            + " and "@ + name_key(task.physical_table())
    }
}

/// Checks that all tasks create logical tables of one physical table, and gives its name. The
/// first task that does not is the error.
pub fn check_physical_table_name(tasks: &[CreateTableTask]) -> (res: Result<TableName, Error>)
    requires
        tasks@.len() > 0,
    ensures
        match res {
            Ok(name) => tasks_agree(tasks@, tasks@.len() as int) && name@
                == tasks@[0].physical_table(),
            Err(err) => exists|i: int|
                {
                    &&& 0 <= i < tasks@.len()
                    &&& #[trigger] tasks_agree(tasks@, i)
                    &&& !tasks_agree(tasks@, i + 1)
                    &&& err matches Error::Unsupported { operation }
                    &&& operation@ == unsupported_operation(tasks@, i)
                },
        },
{
    let metric = METRIC_ENGINE.to_owned();
    let mut physical: Option<TableName> = None;
    let mut i: usize = 0;
    while i < tasks.len()
        invariant
            i <= tasks@.len(),
            metric@ == METRIC_ENGINE@,
            tasks_agree(tasks@, i as int),
            physical is None <==> i == 0,
            physical matches Some(name) ==> name@ == tasks@[0].physical_table(),
        decreases tasks@.len() - i,
    {
        let task = &tasks[i];
        let ghost at = i as int;
        assert(tasks_agree(tasks@, at));
        if !(task.create_table.engine == metric) {
            let mut operation = "create table with engine ".to_owned();
            operation.append(task.create_table.engine.as_str());
            assert(!tasks@[at].is_metric());
            assert(!tasks_agree(tasks@, at + 1));
            return Err(Error::Unsupported { operation });
        }
        let table = match task.create_table.table_options.get(LOGICAL_TABLE_METADATA_KEY) {
            Some(table) => table,
            None => {
                let mut operation = "create table without table options ".to_owned();
                operation.append(LOGICAL_TABLE_METADATA_KEY);
                assert(!tasks@[at].is_logical());
                assert(!tasks_agree(tasks@, at + 1));
                return Err(Error::Unsupported { operation });
            },
        };
        let current = TableName {
            catalog: task.create_table.catalog_name.clone(),
            schema: task.create_table.schema_name.clone(),
            table: table.clone(),
        };
        assert(current@ == tasks@[at].physical_table());
        physical = match physical {
            Some(name) => {
                if !name.same(&current) {
                    let mut operation =
                        "create table with different physical table name ".to_owned();
                    operation.append(name.key().as_str());
                    operation.append(" and ");
                    operation.append(current.key().as_str());
                    assert(tasks@[at].physical_table() != tasks@[0].physical_table());
                    assert(!tasks_agree(tasks@, at + 1));
                    return Err(Error::Unsupported { operation });
                }
                Some(name)
            },
            None => Some(current),
        };
        i += 1;
    }
    Ok(physical.unwrap())
}

/// Decides on a table once it is known what was found under its name: its number, or that there
/// is no such table.
pub fn table_id_of(name: &TableName, found: Option<u32>) -> (res: Result<u32, Error>)
    ensures
        match found {
            Some(table_id) => res == Ok::<u32, Error>(table_id),
            None => {
                &&& res matches Err(Error::TableNotFound { table_name })
                &&& table_name@ == name_reference(name@)
            },
        },
{
    match found {
        Some(table_id) => Ok(table_id),
        None => Err(Error::TableNotFound { table_name: name.reference() }),
    }
}

/// What is known of the tables of a datanode: the options of the write-ahead log of each region,
/// as text.
#[derive(Debug)]
pub struct DatanodeTableValue {
    pub region_wal_options: HashMap<u32, String>,
}

/// Whether a reader may give `options` for a text.
pub open spec fn options_read_as<W, F: Fn(&str) -> Result<W, String>>(
    parse: F,
    text: Seq<char>,
    options: W,
) -> bool {
    exists|t: &str| t@ == text && call_ensures(parse, (t,), Ok::<W, String>(options))
}

/// Whether a reader may take a text.
pub open spec fn options_readable<W, F: Fn(&str) -> Result<W, String>>(
    parse: F,
    text: Seq<char>,
) -> bool {
    exists|options: W| options_read_as(parse, text, options)
}

/// Whether a reader may refuse a text for a reason.
pub open spec fn options_refused<W, F: Fn(&str) -> Result<W, String>>(
    parse: F,
    text: Seq<char>,
    reason: String,
) -> bool {
    exists|t: &str| t@ == text && call_ensures(parse, (t,), Err::<W, String>(reason))
}

/// Whether a reader may take all texts of a map.
pub open spec fn all_readable<W, F: Fn(&str) -> Result<W, String>>(
    parse: F,
    texts: Map<u32, String>,
) -> bool {
    forall|k: u32| #[trigger] texts.contains_key(k) ==> options_readable::<W, F>(parse, texts[k]@)
}

/// Whether the error tells of a text of a map that the reader refused.
pub open spec fn refusal_in<W, F: Fn(&str) -> Result<W, String>>(
    parse: F,
    texts: Map<u32, String>,
    err: Error,
) -> bool {
    &&& err matches Error::ParseWalOptions { wal_options, reason }
    &&& exists|k: u32|
        {
            &&& #[trigger] texts.contains_key(k)
            &&& wal_options@ == texts[k]@
            &&& options_refused::<W, F>(parse, texts[k]@, reason)
        }
}

/// Whether a map has the options of the regions of `texts`, each as the reader may give it.
pub open spec fn options_of<W, F: Fn(&str) -> Result<W, String>>(
    parse: F,
    texts: Map<u32, Seq<char>>,
    options: Map<u32, W>,
) -> bool {
    &&& options.dom() == texts.dom()
    &&& forall|k: u32| #[trigger]
        options.contains_key(k) ==> options_read_as(parse, texts[k], options[k])
}

/// The characters of the texts of a map.
pub open spec fn text_views(texts: Map<u32, String>) -> Map<u32, Seq<char>> {
    texts.map_values(|text: String| text@)
}

/// Reads the options of regions and adds them to a map, in which they replace those that were
/// there. It stops at a text that cannot be read.
fn read_options_into<W, F: Fn(&str) -> Result<W, String>>(
    options: &mut HashMap<u32, W>,
    serialized: &HashMap<u32, String>,
    parse: &F,
    Ghost(texts): Ghost<Map<u32, Seq<char>>>,
) -> (res: Result<(), Error>)
    requires
        forall|t: &str| call_requires(*parse, (t,)),
        options_of(*parse, texts, old(options)@),
    ensures
        match res {
            Ok(_) => {
                &&& all_readable::<W, F>(*parse, serialized@)
                &&& options_of(
                    *parse,
                    texts.union_prefer_right(text_views(serialized@)),
                    final(options)@,
                )
            },
            Err(err) => refusal_in::<W, F>(*parse, serialized@, err),
        },
{
    let entries = entries_of(serialized);
    let ghost mut read: Map<u32, Seq<char>> = texts;
    let mut i: usize = 0;
    while i < entries.len()
        invariant
            i <= entries@.len(),
            lists_map(entries@, serialized@),
            forall|t: &str| call_requires(*parse, (t,)),
            options_of(*parse, read, options@),
            forall|k: u32| #[trigger]
                read.contains_key(k) <==> texts.contains_key(k) || exists|j: int|
                    0 <= j < i && (#[trigger] entries@[j]).0 == k,
            forall|j: int| 0 <= j < i ==> read[(#[trigger] entries@[j]).0] == entries@[j].1@,
            forall|k: u32|
                texts.contains_key(k) && (forall|j: int|
                    0 <= j < i ==> (#[trigger] entries@[j]).0 != k) ==> #[trigger] read[k]
                    == texts[k],
            forall|j: int|
                0 <= j < i ==> options_readable::<W, F>(*parse, (#[trigger] entries@[j]).1@),
        decreases entries@.len() - i,
    {
        let entry = entries[i];
        let text = entry.1.as_str();
        assert(entries@[i as int] == entry);
        assert(serialized@.contains_key(entry.0) && serialized@[entry.0] == *entry.1);
        match parse(text) {
            Ok(value) => {
                assert(options_read_as(*parse, entry.1@, value));
                let ghost last = read;
                options.insert(entry.0, value);
                proof {
                    read = read.insert(entry.0, entry.1@);
                    assert(options@.dom() =~= read.dom());
                    assert forall|k: u32| #[trigger]
                        read.contains_key(k) <==> texts.contains_key(k) || exists|j: int|
                            0 <= j < i + 1 && (#[trigger] entries@[j]).0 == k by {
                        if k == entry.0 {
                            assert(entries@[i as int].0 == k);
                        } else {
                            assert(read.contains_key(k) == last.contains_key(k));
                        }
                    }
                }
            },
            Err(reason) => {
                assert(options_refused::<W, F>(*parse, serialized@[entry.0]@, reason));
                return Err(Error::ParseWalOptions { wal_options: entry.1.clone(), reason });
            },
        }
        i += 1;
    }
    proof {
        let merged = texts.union_prefer_right(text_views(serialized@));
        assert forall|k: u32| read.contains_key(k) == #[trigger] merged.contains_key(k) by {
            assert(read.contains_key(k) <==> texts.contains_key(k) || exists|j: int|
                0 <= j < i && (#[trigger] entries@[j]).0 == k);
            if serialized@.contains_key(k) {
                let j = choose|j: int| 0 <= j < entries@.len() && (#[trigger] entries@[j]).0 == k;
                assert(entries@[j].0 == k);
            }
        }
        assert forall|k: u32| #[trigger] merged.contains_key(k) implies read[k] == merged[k] by {
            if serialized@.contains_key(k) {
                let j = choose|j: int| 0 <= j < entries@.len() && (#[trigger] entries@[j]).0 == k;
                assert(read[entries@[j].0] == entries@[j].1@);
            } else {
                assert(forall|j: int|
                    0 <= j < i ==> serialized@.contains_key((#[trigger] entries@[j]).0));
            }
        }
        assert(read =~= merged);
        assert forall|k: u32| #[trigger] serialized@.contains_key(k) implies options_readable::<
            W,
            F,
        >(*parse, serialized@[k]@) by {
            let j = choose|j: int| 0 <= j < entries@.len() && (#[trigger] entries@[j]).0 == k;
            assert(options_readable::<W, F>(*parse, entries@[j].1@));
        }
    }
    Ok(())
}

/// What reading the options of regions may come to.
pub open spec fn parse_outcome<W, F: Fn(&str) -> Result<W, String>>(
    parse: F,
    texts: Map<u32, String>,
    res: Result<Map<u32, W>, Error>,
) -> bool {
    match res {
        Ok(options) => options_of(parse, text_views(texts), options),
        Err(err) => refusal_in::<W, F>(parse, texts, err),
    }
}

/// Parses the options of the write-ahead log of regions from text.
pub fn parse_region_wal_options<W, F: Fn(&str) -> Result<W, String>>(
    serialized_options: &HashMap<u32, String>,
    parse: F,
) -> (res: Result<HashMap<u32, W>, Error>)
    requires
        forall|t: &str| call_requires(parse, (t,)),
    ensures
        match res {
            Ok(options) => parse_outcome(parse, serialized_options@, Ok(options@)),
            Err(err) => parse_outcome::<W, F>(parse, serialized_options@, Err(err)),
        },
{
    let mut options: HashMap<u32, W> = HashMap::new();
    let ghost none: Map<u32, Seq<char>> = Map::empty();
    assert(options@.dom() =~= none.dom());
    match read_options_into(&mut options, serialized_options, &parse, Ghost(none)) {
        Ok(_) => {
            assert(none.union_prefer_right(text_views(serialized_options@)) =~= text_views(
                serialized_options@,
            ));
            Ok(options)
        },
        Err(err) => Err(err),
    }
}

/// Whether a reader gives `options` for a text, and never anything else.
pub open spec fn reads_only_as<W, F: Fn(&str) -> Result<W, String>>(
    parse: F,
    text: Seq<char>,
    options: W,
) -> bool {
    forall|t: &str, res: Result<W, String>|
        t@ == text && #[trigger] call_ensures(parse, (t,), res) ==> res == Ok::<W, String>(options)
}

/// Options that were written come back: where the reader gives for each text the options that it
/// was written from, the outcome is the map of those options, be it empty or not.
pub proof fn law_written_options_come_back<W, F: Fn(&str) -> Result<W, String>>(
    parse: F,
    texts: Map<u32, String>,
    written: Map<u32, W>,
    res: Result<Map<u32, W>, Error>,
)
    requires
        texts.dom() == written.dom(),
        forall|k: u32| #[trigger]
            written.contains_key(k) ==> reads_only_as(parse, texts[k]@, written[k]),
        parse_outcome(parse, texts, res),
    ensures
        res == Ok::<Map<u32, W>, Error>(written),
{
    match res {
        Ok(options) => {
            assert forall|k: u32| #[trigger] options.contains_key(k) implies written.contains_key(k)
                && options[k] == written[k] by {
                assert(text_views(texts).contains_key(k));
                assert(texts.dom().contains(k));
                assert(written.contains_key(k));
            }
            assert forall|k: u32| #[trigger] written.contains_key(k) implies options.contains_key(
                k,
            ) by {
                assert(texts.dom().contains(k));
                assert(text_views(texts).dom().contains(k));
            }
            assert(options =~= written);
        },
        Err(_) => {
            let k = choose|k: u32| #[trigger]
                texts.contains_key(k) && options_refused::<W, F>(
                    parse,
                    texts[k]@,
                    res->Err_0->ParseWalOptions_reason,
                );
            assert(texts.dom().contains(k));
            assert(written.contains_key(k));
        },
    }
}

/// The texts of the options of all regions: of two values that name a region the later counts.
pub open spec fn merged_texts(values: Seq<DatanodeTableValue>) -> Map<u32, Seq<char>>
    decreases values.len(),
{
    if values.len() == 0 {
        Map::empty()
    } else {
        merged_texts(values.drop_last()).union_prefer_right(
            text_views(values.last().region_wal_options@),
        )
    }
}

/// Extracts the options of the write-ahead log of regions from [`DatanodeTableValue`]s.
pub fn extract_region_wal_options<W, F: Fn(&str) -> Result<W, String>>(
    datanode_table_values: &Vec<DatanodeTableValue>,
    parse: F,
) -> (res: Result<HashMap<u32, W>, Error>)
    requires
        forall|t: &str| call_requires(parse, (t,)),
    ensures
        match res {
            Ok(options) => {
                &&& options_of(parse, merged_texts(datanode_table_values@), options@)
                &&& forall|i: int|
                    0 <= i < datanode_table_values@.len() ==> all_readable::<W, F>(
                        parse,
                        (#[trigger] datanode_table_values@[i]).region_wal_options@,
                    )
            },
            Err(err) => exists|i: int|
                {
                    &&& 0 <= i < datanode_table_values@.len()
                    &&& refusal_in::<W, F>(
                        parse,
                        (#[trigger] datanode_table_values@[i]).region_wal_options@,
                        err,
                    )
                    &&& forall|j: int|
                        0 <= j < i ==> all_readable::<W, F>(
                            parse,
                            (#[trigger] datanode_table_values@[j]).region_wal_options@,
                        )
                },
        },
{
    let ghost values = datanode_table_values@;
    let mut options: HashMap<u32, W> = HashMap::new();
    assert(values.take(0) =~= Seq::empty());
    assert(options@.dom() =~= merged_texts(values.take(0)).dom());
    let mut i: usize = 0;
    while i < datanode_table_values.len()
        invariant
            i <= values.len(),
            values == datanode_table_values@,
            forall|t: &str| call_requires(parse, (t,)),
            options_of(parse, merged_texts(values.take(i as int)), options@),
            forall|j: int|
                0 <= j < i ==> all_readable::<W, F>(
                    parse,
                    (#[trigger] values[j]).region_wal_options@,
                ),
        decreases values.len() - i,
    {
        let value = &datanode_table_values[i];
        assert(*value == values[i as int]);
        assert(values.take(i + 1).drop_last() =~= values.take(i as int));
        match read_options_into(
            &mut options,
            &value.region_wal_options,
            &parse,
            Ghost(merged_texts(values.take(i as int))),
        ) {
            Ok(_) => {},
            Err(err) => {
                return Err(err);
            },
        }
        i += 1;
    }
    assert(values.take(i as int) =~= values);
    Ok(options)
}

/// Where two values name a region, the later one decides: the options of a region are those of
/// the last value that names it.
pub proof fn law_later_value_decides(values: Seq<DatanodeTableValue>, i: int, region: u32)
    requires
        0 <= i < values.len(),
        values[i].region_wal_options@.contains_key(region),
        forall|j: int|
            i < j < values.len() ==> !(#[trigger] values[j]).region_wal_options@.contains_key(
                region,
            ),
    ensures
        merged_texts(values).contains_key(region),
        merged_texts(values)[region] == values[i].region_wal_options@[region]@,
    decreases values.len(),
{
    let n = values.len() - 1;
    if i < n {
        let front = values.drop_last();
        assert forall|j: int| i < j < front.len() implies !(
        #[trigger] front[j]).region_wal_options@.contains_key(region) by {
            assert(front[j] == values[j]);
        }
        law_later_value_decides(front, i, region);
        assert(!values[n].region_wal_options@.contains_key(region));
    }
}

/// The path of a schema is the catalog, a slash and the schema.
pub proof fn law_storage_path_is_made_of_its_names(catalog: Seq<char>, schema: Seq<char>)
    ensures
        storage_path(catalog, schema).len() == catalog.len() + 1 + schema.len(),
        storage_path(catalog, schema).take(catalog.len() as int) == catalog,
        storage_path(catalog, schema)[catalog.len() as int] == '/',
        storage_path(catalog, schema).skip(catalog.len() as int + 1) == schema,
{
    let path = storage_path(catalog, schema);
    assert(path.take(catalog.len() as int) =~= catalog);
    assert(path.skip(catalog.len() as int + 1) =~= schema);
}

/// Where the tasks pass the check with a name, every one of them is stored by the metric engine
/// and names a physical table, and that table is the one of the name, in its catalog and schema.
pub proof fn law_checked_tasks_share_the_named_table(
    tasks: Seq<CreateTableTask>,
    name: TableName,
    i: int,
)
    requires
        tasks_agree(tasks, tasks.len() as int),
        name@ == tasks[0].physical_table(),
        0 <= i < tasks.len(),
    ensures
        ({
            let create = tasks[i].create_table;
            &&& create.engine@ == METRIC_ENGINE@
            &&& create.table_options@.contains_key(LOGICAL_TABLE_METADATA_KEY@)
            &&& create.catalog_name@ == name.catalog@
            &&& create.schema_name@ == name.schema@
            &&& create.table_options@[LOGICAL_TABLE_METADATA_KEY@]@ == name.table@
        }),
{
    assert(tasks[i].physical_table() == tasks[0].physical_table());
}

/// Tasks that are all stored by the metric engine and name one physical table, in one catalog and
/// schema, agree as far as they go; and where two of them name different ones, they do not.
pub proof fn law_tasks_of_one_table_agree(
    tasks: Seq<CreateTableTask>,
    name: TableNameParts,
    n: int,
)
    requires
        0 <= n <= tasks.len(),
    ensures
        (forall|i: int|
            0 <= i < n ==> {
                let create = (#[trigger] tasks[i]).create_table;
                &&& create.engine@ == METRIC_ENGINE@
                &&& create.table_options@.contains_key(LOGICAL_TABLE_METADATA_KEY@)
                &&& create.catalog_name@ == name.catalog
                &&& create.schema_name@ == name.schema
                &&& create.table_options@[LOGICAL_TABLE_METADATA_KEY@]@ == name.table
            }) ==> tasks_agree(tasks, n),
        forall|i: int, j: int|
            0 <= i < n && 0 <= j < n && tasks_agree(tasks, n) ==> {
                let a = (#[trigger] tasks[i]).create_table;
                let b = (#[trigger] tasks[j]).create_table;
                &&& a.catalog_name@ == b.catalog_name@
                &&& a.schema_name@ == b.schema_name@
                &&& a.table_options@[LOGICAL_TABLE_METADATA_KEY@]@
                    == b.table_options@[LOGICAL_TABLE_METADATA_KEY@]@
            },
{
    if tasks_agree(tasks, n) {
        assert forall|i: int, j: int| 0 <= i < n && 0 <= j < n implies {
            let a = (#[trigger] tasks[i]).create_table;
            let b = (#[trigger] tasks[j]).create_table;
            &&& a.catalog_name@ == b.catalog_name@
            &&& a.schema_name@ == b.schema_name@
            &&& a.table_options@[LOGICAL_TABLE_METADATA_KEY@]@
                == b.table_options@[LOGICAL_TABLE_METADATA_KEY@]@
        } by {
            assert(tasks[i].physical_table() == tasks[j].physical_table());
        }
    }
}

/// What is not supported of a task is told by the first thing that is wrong with it: its engine,
/// which is shown, that it names no physical table, or that this is not the one of the first
/// task, both of which are shown.
pub proof fn law_unsupported_operation_tells_why(tasks: Seq<CreateTableTask>, i: int)
    requires
        0 <= i < tasks.len(),
    ensures
        ({
            let told = unsupported_operation(tasks, i);
            let first = tasks[0].create_table;
            let create = tasks[i].create_table;
            let key = LOGICAL_TABLE_METADATA_KEY@;
            if create.engine@ != METRIC_ENGINE@ {
                told == "create table with engine "@ + create.engine@
            } else if !create.table_options@.contains_key(key) {
                told == "create table without table options "@ + key
            } else {
                told == "create table with different physical table name "@ + (
                "__table_name/"@ + first.catalog_name@ + "/"@ + first.schema_name@ + "/"@
                    + first.table_options@[key]@) + " and "@ + ("__table_name/"@
                    + create.catalog_name@ + "/"@ + create.schema_name@ + "/"@
                    + create.table_options@[key]@)
            }
        }),
{
}

/// The name of a table is shown as catalog, schema and table with dots between them.
pub proof fn law_reference_shows_the_names(name: TableName)
    ensures
        name_reference(name@) == name.catalog@ + "."@ + name.schema@ + "."@ + name.table@,
{
}

/// Reading the options of regions gives options for exactly the regions that have a text, each
/// of them what the reader gave for the text of that region; or it fails with a text that some
/// region has, and with what the reader said against that text.
pub proof fn law_options_come_from_their_texts<W, F: Fn(&str) -> Result<W, String>>(
    parse: F,
    texts: Map<u32, String>,
    res: Result<Map<u32, W>, Error>,
)
    requires
        parse_outcome(parse, texts, res),
    ensures
        res matches Ok(options) ==> forall|k: u32|
            options.contains_key(k) <==> #[trigger] texts.contains_key(k),
        res matches Ok(options) ==> forall|k: u32| #[trigger]
            texts.contains_key(k) ==> exists|t: &str|
                t@ == texts[k]@ && #[trigger] call_ensures(parse, (t,), Ok(options[k])),
        res matches Err(err) ==> {
            &&& err matches Error::ParseWalOptions { wal_options, reason }
            &&& exists|k: u32, t: &str|
                {
                    &&& #[trigger] texts.contains_key(k)
                    &&& wal_options@ == texts[k]@
                    &&& t@ == texts[k]@
                    &&& #[trigger] call_ensures(parse, (t,), Err(reason))
                }
        },
{
    match res {
        Ok(options) => {
            assert forall|k: u32| options.contains_key(k) <==> #[trigger] texts.contains_key(k) by {
                assert(options.dom().contains(k) <==> text_views(texts).dom().contains(k));
            }
            assert forall|k: u32| #[trigger] texts.contains_key(k) implies exists|t: &str|
                t@ == texts[k]@ && #[trigger] call_ensures(parse, (t,), Ok(options[k])) by {
                assert(options.contains_key(k));
                assert(options_read_as(parse, texts[k]@, options[k]));
            }
        },
        Err(err) => {
            let reason = err->ParseWalOptions_reason;
            let k = choose|k: u32|
                {
                    &&& #[trigger] texts.contains_key(k)
                    &&& err->ParseWalOptions_wal_options@ == texts[k]@
                    &&& options_refused::<W, F>(parse, texts[k]@, reason)
                };
            let t = choose|t: &str|
                t@ == texts[k]@ && call_ensures(parse, (t,), Err::<W, String>(reason));
            assert(texts.contains_key(k) && call_ensures(parse, (t,), Err::<W, String>(reason)));
        },
    }
}

/// The options that are extracted are those of the regions that some value names, and of no
/// others.
pub proof fn law_extracted_regions_are_the_named_ones<W, F: Fn(&str) -> Result<W, String>>(
    parse: F,
    values: Seq<DatanodeTableValue>,
    options: Map<u32, W>,
    region: u32,
)
    requires
        options_of(parse, merged_texts(values), options),
    ensures
        options.contains_key(region) <==> exists|i: int|
            0 <= i < values.len() && (#[trigger] values[i]).region_wal_options@.contains_key(region),
{
    lemma_merged_regions(values, region);
    assert(options.dom().contains(region) <==> merged_texts(values).dom().contains(region));
}

/// Texts are merged for the regions that some value names.
proof fn lemma_merged_regions(values: Seq<DatanodeTableValue>, region: u32)
    ensures
        merged_texts(values).contains_key(region) <==> exists|i: int|
            0 <= i < values.len() && (#[trigger] values[i]).region_wal_options@.contains_key(region),
    decreases values.len(),
{
    if values.len() > 0 {
        let front = values.drop_last();
        let n = values.len() - 1;
        lemma_merged_regions(front, region);
        if merged_texts(front).contains_key(region) {
            let i = choose|i: int|
                0 <= i < front.len() && (#[trigger] front[i]).region_wal_options@.contains_key(
                    region,
                );
            assert(values[i].region_wal_options@.contains_key(region));
        }
        if values[n].region_wal_options@.contains_key(region) {
            assert(text_views(values[n].region_wal_options@).contains_key(region));
        }
        if exists|i: int|
            0 <= i < values.len() && (#[trigger] values[i]).region_wal_options@.contains_key(
                region,
            ) {
            let i = choose|i: int|
                0 <= i < values.len() && (#[trigger] values[i]).region_wal_options@.contains_key(
                    region,
                );
            if i < n {
                assert(front[i] == values[i]);
            }
        }
    }
}

/// The options that are extracted for a region are what the reader gave for the text in the last
/// value that names the region.
pub proof fn law_extracted_options_come_from_the_last_value<W, F: Fn(&str) -> Result<W, String>>(
    parse: F,
    values: Seq<DatanodeTableValue>,
    options: Map<u32, W>,
    i: int,
    region: u32,
)
    requires
        options_of(parse, merged_texts(values), options),
        0 <= i < values.len(),
        values[i].region_wal_options@.contains_key(region),
        forall|j: int|
            i < j < values.len() ==> !(#[trigger] values[j]).region_wal_options@.contains_key(
                region,
            ),
    ensures
        exists|t: &str|
            t@ == values[i].region_wal_options@[region]@ && #[trigger] call_ensures(
                parse,
                (t,),
                Ok(options[region]),
            ),
{
    law_later_value_decides(values, i, region);
    assert(options.dom().contains(region) <==> merged_texts(values).dom().contains(region));
    assert(options.contains_key(region));
    assert(options_read_as(parse, merged_texts(values)[region], options[region]));
}

/// That the options of a value can all be read, and that an error tells of one that cannot, is a
/// matter of each text and the reader alone.
pub proof fn law_readable_texts_are_read<W, F: Fn(&str) -> Result<W, String>>(
    parse: F,
    texts: Map<u32, String>,
    err: Error,
)
    ensures
        all_readable::<W, F>(parse, texts) <==> forall|k: u32| #[trigger]
            texts.contains_key(k) ==> exists|t: &str, options: W|
                t@ == texts[k]@ && #[trigger] call_ensures(parse, (t,), Ok(options)),
        refusal_in::<W, F>(parse, texts, err) <==> {
            &&& err matches Error::ParseWalOptions { wal_options, reason }
            &&& exists|k: u32, t: &str|
                {
                    &&& #[trigger] texts.contains_key(k)
                    &&& wal_options@ == texts[k]@
                    &&& t@ == texts[k]@
                    &&& #[trigger] call_ensures(parse, (t,), Err::<W, String>(reason))
                }
        },
{
    assert forall|k: u32| #[trigger] texts.contains_key(k) implies (options_readable::<W, F>(
        parse,
        texts[k]@,
    ) <==> exists|t: &str, options: W|
        t@ == texts[k]@ && #[trigger] call_ensures(parse, (t,), Ok(options))) by {
        if options_readable::<W, F>(parse, texts[k]@) {
            let options = choose|options: W| options_read_as(parse, texts[k]@, options);
            let t = choose|t: &str|
                t@ == texts[k]@ && call_ensures(parse, (t,), Ok::<W, String>(options));
            assert(call_ensures(parse, (t,), Ok::<W, String>(options)));
        }
        if exists|t: &str, options: W|
            t@ == texts[k]@ && #[trigger] call_ensures(parse, (t,), Ok(options)) {
            let (t, options) = choose|t: &str, options: W|
                t@ == texts[k]@ && #[trigger] call_ensures(parse, (t,), Ok(options));
            assert(options_read_as(parse, texts[k]@, options));
        }
    }
    if refusal_in::<W, F>(parse, texts, err) {
        law_options_come_from_their_texts::<W, F>(parse, texts, Err(err));
    }
    if let Error::ParseWalOptions { wal_options, reason } = err {
        if exists|k: u32, t: &str|
            {
                &&& #[trigger] texts.contains_key(k)
                &&& wal_options@ == texts[k]@
                &&& t@ == texts[k]@
                &&& #[trigger] call_ensures(parse, (t,), Err::<W, String>(reason))
            } {
            let (k, t) = choose|k: u32, t: &str|
                {
                    &&& #[trigger] texts.contains_key(k)
                    &&& wal_options@ == texts[k]@
                    &&& t@ == texts[k]@
                    &&& #[trigger] call_ensures(parse, (t,), Err::<W, String>(reason))
                };
            assert(options_refused::<W, F>(parse, texts[k]@, reason));
        }
    }
}

} // verus!
