//! The tables of an operator, found by the character that identifies them.
use std::collections::BTreeMap;

use vstd::prelude::*;
use vstd::string::StrSliceExecFns;

use crate::ordered;
use crate::types;
use crate::types::TableDescriptor;

verus! {

/// The number by which a table is found.
pub open spec fn table_code(table: char) -> u32 {
    table as u32
}

/// No two characters have the same code.
pub proof fn codes_differ(table: char, other: char)
    requires
        table_code(table) == table_code(other),
    ensures
        table == other,
{
}

/// The character that identifies a table or file whose name, or table's name, is `name`.
pub open spec fn table_char(name: Seq<char>) -> char {
    name[0]
}

/// Whether every table has a name, and so a character that identifies it.
pub open spec fn all_named(tables: Seq<types::Table>) -> bool {
    forall|i: int| 0 <= i < tables.len() ==> (#[trigger] tables[i]).name.len() > 0
}

/// The tables by the codes of the characters that identify them. Of several tables with the
/// same character the last one counts.
pub open spec fn indexed(tables: Seq<types::Table>) -> Map<u32, types::Table>
    decreases tables.len(),
{
    if tables.len() == 0 {
        Map::empty()
    } else {
        indexed(tables.drop_last()).insert(
            table_code(table_char(tables.last().name)),
            tables.last(),
        )
    }
}

/// Whether every table stands under the code of the character that identifies it.
pub open spec fn is_index(tables: Map<u32, types::Table>) -> bool {
    forall|code: u32| #[trigger]
        tables.contains_key(code) ==> tables[code].name.len() > 0 && table_code(
            table_char(tables[code].name),
        ) == code
}

/// Indexing tables that have names puts each under its own character.
pub proof fn indexing_is_sound(tables: Seq<types::Table>)
    requires
        all_named(tables),
    ensures
        is_index(indexed(tables)),
    decreases tables.len(),
{
    if tables.len() > 0 {
        assert forall|i: int| 0 <= i < tables.drop_last().len() implies (
        #[trigger] tables.drop_last()[i]).name.len() > 0 by {
            assert(tables[i].name.len() > 0);
        }
        indexing_is_sound(tables.drop_last());
        assert(tables.last() == tables[tables.len() - 1]);
    }
}

/// Indexing the tables of an index once more gives the same index.
pub proof fn reindexing_changes_nothing(tables: Map<u32, types::Table>)
    requires
        is_index(tables),
    ensures
        all_named(ordered::ordered_values(tables)),
        indexed(ordered::ordered_values(tables)) == tables,
{
    let keys = ordered::ordered_keys(tables.dom());
    let list = ordered::ordered_values(tables);
    ordered::lemma_keys_below(tables.dom(), 0x1_0000_0000);
    assert forall|i: int| 0 <= i < list.len() implies (#[trigger] list[i]).name.len() > 0
        && table_code(table_char(list[i].name)) == keys[i] by {
        assert(keys.contains(keys[i]));
        assert(tables.contains_key(keys[i]));
    }
    assert forall|i: int| 0 <= i < keys.len() implies tables.contains_key(#[trigger] keys[i])
        && list[i] == tables[keys[i]] by {
        assert(keys.contains(keys[i]));
    }
    lemma_reindexed(tables, keys, list, list.len());
    assert(list.take(list.len() as int) =~= list);
    let again = indexed(list);
    assert forall|code: u32| again.contains_key(code) <==> tables.contains_key(code) by {
        if tables.contains_key(code) {
            assert(keys.contains(code));
            let i = keys.index_of(code);
            assert(again.contains_key(keys[i]));
        }
    }
    assert(again =~= tables);
}

proof fn lemma_reindexed(
    tables: Map<u32, types::Table>,
    keys: Seq<u32>,
    list: Seq<types::Table>,
    n: nat,
)
    requires
        is_index(tables),
        list.len() == keys.len(),
        forall|i: int|
            0 <= i < keys.len() ==> tables.contains_key(#[trigger] keys[i]) && list[i]
                == tables[keys[i]],
        n <= keys.len(),
    ensures
        forall|i: int| 0 <= i < n ==> indexed(list.take(n as int)).contains_key(#[trigger] keys[i]),
        forall|code: u32| #[trigger]
            indexed(list.take(n as int)).contains_key(code) ==> tables.contains_key(code)
                && indexed(list.take(n as int))[code] == tables[code],
    decreases n,
{
    if n > 0 {
        lemma_reindexed(tables, keys, list, (n - 1) as nat);
        assert(list.take(n as int).drop_last() =~= list.take(n - 1));
        assert(tables.contains_key(keys[n - 1]));
        assert(list.take(n as int).last() == tables[keys[n - 1]]);
        let before = indexed(list.take(n - 1));
        let after = indexed(list.take(n as int));
        assert(after == before.insert(keys[n - 1], tables[keys[n - 1]]));
        assert forall|code: u32| #[trigger] after.contains_key(code) implies tables.contains_key(
            code,
        ) && after[code] == tables[code] by {
            if code != keys[n - 1] {
                assert(before.contains_key(code));
            }
        }
        assert forall|i: int| 0 <= i < n implies after.contains_key(#[trigger] keys[i]) by {
            if i < n - 1 {
                assert(before.contains_key(keys[i]));
            }
        }
    } else {
        assert(indexed(list.take(0)) =~= Map::empty());
    }
}

/// The first character of `name`.
pub fn first_char(name: &String) -> (c: char)
    requires
        name@.len() > 0,
    ensures
        c == table_char(name@),
{
    name.as_str().get_char(0)
}

/// Whether every table has a name.
pub fn tables_named(tables: &Vec<TableDescriptor>) -> (named: bool)
    ensures
        named == all_named(types::table_views(tables@)),
{
    let mut i: usize = 0;
    while i < tables.len()
        invariant
            i <= tables@.len(),
            forall|j: int|
                0 <= j < i ==> (#[trigger] types::table_views(tables@)[j]).name.len() > 0,
        decreases tables.len() - i,
    {
        if tables[i].name.as_str().is_empty() {
            assert(types::table_views(tables@)[i as int].name.len() == 0);
            return false;
        }
        i = i + 1;
    }
    true
}

/// Tables by the characters that identify them.
pub struct TableIndex {
    tables: BTreeMap<u32, TableDescriptor>,
}

impl View for TableIndex {
    type V = Map<u32, types::Table>;

    closed spec fn view(&self) -> Map<u32, types::Table> {
        self.tables@.map_values(|t: TableDescriptor| t@)
    }
}

impl TableIndex {
    /// The index of `tables`; of several tables with the same character the last one counts.
    pub fn from_tables(tables: Vec<TableDescriptor>) -> (index: TableIndex)
        requires
            all_named(types::table_views(tables@)),
        ensures
            index@ == indexed(types::table_views(tables@)),
    {
        let ghost all = types::table_views(tables@);
        let mut index: TableIndex = TableIndex { tables: BTreeMap::new() };
        assert(index@ =~= Map::empty());
        for table in it: tables
            invariant
                it.seq() == tables@,
                all == types::table_views(tables@),
                all_named(all),
                index@ == indexed(all.take(it.index() as int)),
        {
            assert(all[it.index() as int] == table@);
            let ghost before = index@;
            let ghost view = table@;
            let code: u32 = first_char(&table.name) as u32;
            index.tables.insert(code, table);
            proof {
                assert(all.take(it.index() + 1).drop_last() =~= all.take(it.index() as int));
                assert(index@ =~= before.insert(code, view));
            }
        }
        assert(all.take(all.len() as int) =~= all);
        index
    }

    /// The table that `table` identifies.
    pub fn get(&self, table: char) -> (found: Option<&TableDescriptor>)
        ensures
            match found {
                Some(t) => self@.contains_key(table_code(table)) && t@ == self@[table_code(table)],
                None => !self@.contains_key(table_code(table)),
            },
    {
        self.get_code(table as u32)
    }

    /// The table with this code.
    pub fn get_code(&self, code: u32) -> (found: Option<&TableDescriptor>)
        ensures
            match found {
                Some(t) => self@.contains_key(code) && t@ == self@[code],
                None => !self@.contains_key(code),
            },
    {
        self.tables.get(&code)
    }

    /// All tables, in ascending order of the characters that identify them.
    pub fn descriptors(&self) -> (tables: Vec<TableDescriptor>)
        ensures
            types::table_views(tables@) == ordered::ordered_values(self@),
    {
        let list: Vec<(u32, &TableDescriptor)> = ordered::entries(&self.tables);
        let ghost all = ordered::ordered_values(self@);
        assert(self@.dom() =~= self.tables@.dom());
        let mut tables: Vec<TableDescriptor> = Vec::new();
        let mut i: usize = 0;
        assert(types::table_views(tables@) =~= all.take(0));
        while i < list.len()
            invariant
                i <= list@.len(),
                list@.len() == all.len(),
                all == ordered::ordered_values(self@),
                forall|j: int| 0 <= j < list@.len() ==> (#[trigger] list@[j]).1@ == all[j],
                types::table_views(tables@) == all.take(i as int),
            decreases list.len() - i,
        {
            let ghost before = tables@;
            let table: &TableDescriptor = list[i].1;
            tables.push(table.clone());
            proof {
                assert(table@ == all[i as int]);
                assert(types::table_views(tables@) =~= types::table_views(before).push(table@));
                assert(types::table_views(tables@) =~= all.take(i + 1));
            }
            i = i + 1;
        }
        assert(all.take(i as int) =~= all);
        tables
    }
}

/// A table is found under the first character of its name, unless a later one of the same
/// character takes its place.
pub proof fn tables_are_found_by_their_first_character(tables: Seq<types::Table>, i: int)
    requires
        all_named(tables),
        0 <= i < tables.len(),
        forall|j: int| i < j < tables.len() ==> (#[trigger] tables[j]).name[0] != tables[i].name[0],
    ensures
        indexed(tables).contains_key(tables[i].name[0] as u32),
        indexed(tables)[tables[i].name[0] as u32] == tables[i],
    decreases tables.len(),
{
    let last = tables.len() - 1;
    if i < last {
        let before = tables.drop_last();
        assert forall|j: int| i < j < before.len() implies (#[trigger] before[j]).name[0]
            != before[i].name[0] by {
            assert(before[j] == tables[j]);
        }
        assert forall|j: int| 0 <= j < before.len() implies (#[trigger] before[j]).name.len()
            > 0 by {
            assert(before[j] == tables[j]);
        }
        tables_are_found_by_their_first_character(before, i);
        assert(tables[last].name[0] != tables[i].name[0]);
        if tables[last].name[0] as u32 == tables[i].name[0] as u32 {
            codes_differ(tables[last].name[0], tables[i].name[0]);
        }
    }
}

/// Nothing is found under a character that no table's name begins with.
pub proof fn only_first_characters_are_found(tables: Seq<types::Table>, code: u32)
    requires
        indexed(tables).contains_key(code),
    ensures
        exists|i: int| 0 <= i < tables.len() && (#[trigger] tables[i]).name[0] as u32 == code,
    decreases tables.len(),
{
    if tables.len() > 0 {
        let last = tables.len() - 1;
        if tables[last].name[0] as u32 != code {
            let before = tables.drop_last();
            only_first_characters_are_found(before, code);
            let i = choose|i: int|
                0 <= i < before.len() && (#[trigger] before[i]).name[0] as u32 == code;
            assert(tables[i] == before[i]);
        }
    }
}

/// The code of a table is that of its character, and the character that counts of a name is the
/// first.
pub proof fn codes_are_those_of_first_characters(name: Seq<char>)
    requires
        name.len() > 0,
    ensures
        table_code(table_char(name)) == name[0] as u32,
{
}

/// Tables can be indexed as soon as none of them is without a name.
pub proof fn every_name_will_do(tables: Seq<types::Table>)
    requires
        forall|i: int| 0 <= i < tables.len() ==> (#[trigger] tables[i]).name != Seq::<char>::empty(),
    ensures
        all_named(tables),
{
    assert forall|i: int| 0 <= i < tables.len() implies (#[trigger] tables[i]).name.len() > 0 by {
        if tables[i].name.len() == 0 {
            assert(tables[i].name =~= Seq::<char>::empty());
        }
    }
}

/// Something is found under the first character of every table's name.
pub proof fn first_characters_are_found(tables: Seq<types::Table>, i: int)
    requires
        0 <= i < tables.len(),
    ensures
        indexed(tables).contains_key(tables[i].name[0] as u32),
    decreases tables.len(),
{
    if i < tables.len() - 1 {
        first_characters_are_found(tables.drop_last(), i);
    }
}

} // verus!
