//! The state files that a checkpoint consists of, by table and then by epoch.
use std::collections::BTreeMap;

use vstd::prelude::*;

use crate::ordered;
use crate::tables;
use crate::tables::TableIndex;
use crate::types;
use crate::types::{ParquetStoreData, TableDeleteBehavior, TableDescriptor, TableType};

verus! {

/// The files of `files` under one more: `file` stands last among those of its table and epoch.
pub open spec fn with_file(
    files: Map<u32, Map<u32, Seq<types::StoredFile>>>,
    table: u32,
    epoch: u32,
    file: types::StoredFile,
) -> Map<u32, Map<u32, Seq<types::StoredFile>>> {
    let epochs = if files.contains_key(table) {
        files[table]
    } else {
        Map::empty()
    };
    let list = if epochs.contains_key(epoch) {
        epochs[epoch]
    } else {
        Seq::empty()
    };
    files.insert(table, epochs.insert(epoch, list.push(file)))
}

/// The files of one table, by ascending epoch.
pub open spec fn in_epoch_order(epochs: Map<u32, Seq<types::StoredFile>>) -> Seq<
    types::StoredFile,
> {
    ordered::concat(ordered::ordered_values(epochs))
}

/// The files of the table with code `table`, by ascending epoch.
pub open spec fn files_of(
    files: Map<u32, Map<u32, Seq<types::StoredFile>>>,
    table: u32,
) -> Seq<types::StoredFile> {
    if files.contains_key(table) {
        in_epoch_order(files[table])
    } else {
        Seq::empty()
    }
}

/// Whether a checkpoint at `epoch` leaves out all files that stand under `key`: a global
/// table is written whole each time.
pub open spec fn is_superseded(table: types::Table, key: u32, epoch: u32) -> bool {
    table.table_type == TableType::Global && key < epoch
}

/// Whether nothing in `file` will be read again once the watermark is at `watermark`.
pub open spec fn is_expired(
    table: types::Table,
    watermark: Option<u64>,
    file: types::StoredFile,
) -> bool {
    &&& table.delete_behavior == TableDeleteBehavior::NoReadsBeforeWatermark
    &&& watermark is Some
    &&& file.max_timestamp_micros < watermark->0 - table.retention_micros
}

/// Those of the files under `key` that a checkpoint at `epoch` keeps.
pub open spec fn kept_under(
    list: Seq<types::StoredFile>,
    table: types::Table,
    key: u32,
    epoch: u32,
    watermark: Option<u64>,
) -> Seq<types::StoredFile> {
    if is_superseded(table, key, epoch) {
        Seq::empty()
    } else {
        list.filter(|f: types::StoredFile| !is_expired(table, watermark, f))
    }
}

/// The files of one table that a checkpoint at `epoch` keeps, by ascending epoch.
pub open spec fn kept_in_table(
    epochs: Map<u32, Seq<types::StoredFile>>,
    table: types::Table,
    epoch: u32,
    watermark: Option<u64>,
) -> Seq<types::StoredFile> {
    ordered::concat(
        ordered::ordered_keys(epochs.dom()).map_values(
            |key: u32| kept_under(epochs[key], table, key, epoch, watermark),
        ),
    )
}

/// The files that a checkpoint at `epoch` keeps, table by table.
pub open spec fn kept_files(
    files: Map<u32, Map<u32, Seq<types::StoredFile>>>,
    tables: Map<u32, types::Table>,
    epoch: u32,
    watermark: Option<u64>,
) -> Seq<types::StoredFile> {
    ordered::concat(
        ordered::ordered_keys(files.dom()).map_values(
            |t: u32| kept_in_table(files[t], tables[t], epoch, watermark),
        ),
    )
}

/// What is left of `files` after a checkpoint at `epoch`: the files that it keeps, all of
/// them under its own epoch.
pub open spec fn retained(
    files: Map<u32, Map<u32, Seq<types::StoredFile>>>,
    tables: Map<u32, types::Table>,
    epoch: u32,
    watermark: Option<u64>,
) -> Map<u32, Map<u32, Seq<types::StoredFile>>> {
    Map::new(
        |t: u32|
            files.contains_key(t) && kept_in_table(files[t], tables[t], epoch, watermark).len() > 0,
        |t: u32|
            Map::empty().insert(epoch, kept_in_table(files[t], tables[t], epoch, watermark)),
    )
}

/// Whether it matters to a checkpoint at `epoch` how old the files of a table are.
pub open spec fn needs_cutoff(
    epochs: Map<u32, Seq<types::StoredFile>>,
    table: types::Table,
    epoch: u32,
) -> bool {
    &&& table.delete_behavior == TableDeleteBehavior::NoReadsBeforeWatermark
    &&& exists|key: u32| #[trigger]
        epochs.contains_key(key) && !is_superseded(table, key, epoch) && epochs[key].len() > 0
}

/// Whether a checkpoint at `epoch` can tell which files of a table to keep: where their age
/// matters, the watermark is not less than the retention.
pub open spec fn table_decidable(
    epochs: Map<u32, Seq<types::StoredFile>>,
    table: types::Table,
    epoch: u32,
    watermark: Option<u64>,
) -> bool {
    needs_cutoff(epochs, table, epoch) && watermark is Some ==> table.retention_micros
        <= watermark->0
}

/// Whether a checkpoint at `epoch` can tell which files to keep: each file's table is known,
/// and so is the age from which on its files are dropped.
pub open spec fn is_decidable(
    files: Map<u32, Map<u32, Seq<types::StoredFile>>>,
    tables: Map<u32, types::Table>,
    epoch: u32,
    watermark: Option<u64>,
) -> bool {
    forall|t: u32| #[trigger]
        files.contains_key(t) ==> tables.contains_key(t) && table_decidable(
            files[t],
            tables[t],
            epoch,
            watermark,
        )
}

/// What the files of one table say, over mathematical values.
pub open spec fn epoch_views(epochs: Map<u32, Vec<ParquetStoreData>>) -> Map<
    u32,
    Seq<types::StoredFile>,
> {
    epochs.map_values(|list: Vec<ParquetStoreData>| types::file_views(list@))
}

/// One more item behind those that are filtered.
pub proof fn lemma_filter_push<A>(s: Seq<A>, keep: spec_fn(A) -> bool, e: A)
    ensures
        s.push(e).filter(keep) == if keep(e) {
            s.filter(keep).push(e)
        } else {
            s.filter(keep)
        },
{
    reveal(Seq::filter);
    assert(s.push(e).drop_last() =~= s);
}

/// Whether nothing in `file` will be read again once the watermark is at `watermark`.
fn expired(table: &TableDescriptor, watermark: Option<u64>, file: &ParquetStoreData) -> (gone: bool)
    requires
        table.delete_behavior == TableDeleteBehavior::NoReadsBeforeWatermark && watermark is Some
            ==> table.retention_micros <= watermark->0,
    ensures
        gone == is_expired(table@, watermark, file@),
{
    if table.delete_behavior == TableDeleteBehavior::NoReadsBeforeWatermark {
        match watermark {
            Some(checkpoint_watermark) => file.max_timestamp_micros < checkpoint_watermark
                - table.retention_micros,
            None => false,
        }
    } else {
        false
    }
}

/// Appends to `kept` those of the files under `key` that a checkpoint at `epoch` keeps.
fn keep_under(
    list: &Vec<ParquetStoreData>,
    table: &TableDescriptor,
    key: u32,
    epoch: u32,
    watermark: Option<u64>,
    kept: &mut Vec<ParquetStoreData>,
)
    requires
        table.delete_behavior == TableDeleteBehavior::NoReadsBeforeWatermark && watermark is Some
            && !is_superseded(table@, key, epoch) && list@.len() > 0 ==> table.retention_micros
            <= watermark->0,
    ensures
        types::file_views(final(kept)@) == types::file_views(old(kept)@) + kept_under(
            types::file_views(list@),
            table@,
            key,
            epoch,
            watermark,
        ),
{
    let ghost before = types::file_views(kept@);
    if table.table_type == TableType::Global && key < epoch {
        assert(before =~= before + Seq::<types::StoredFile>::empty());
        return;
    }
    let ghost keep = |f: types::StoredFile| !is_expired(table@, watermark, f);
    let ghost all = types::file_views(list@);
    let mut i: usize = 0;
    assert(all.take(0).filter(keep) =~= Seq::empty()) by {
        reveal(Seq::filter);
    }
    assert(types::file_views(kept@) =~= before + Seq::<types::StoredFile>::empty());
    while i < list.len()
        invariant
            i <= list@.len(),
            all == types::file_views(list@),
            keep == (|f: types::StoredFile| !is_expired(table@, watermark, f)),
            table.delete_behavior == TableDeleteBehavior::NoReadsBeforeWatermark && watermark
                is Some && list@.len() > 0 ==> table.retention_micros <= watermark->0,
            types::file_views(kept@) == before + all.take(i as int).filter(keep),
        decreases list.len() - i,
    {
        let ghost sofar = kept@;
        let file: &ParquetStoreData = &list[i];
        proof {
            lemma_filter_push(all.take(i as int), keep, all[i as int]);
            assert(all.take(i as int).push(all[i as int]) =~= all.take(i + 1));
        }
        if !expired(table, watermark, file) {
            kept.push(file.clone());
            proof {
                assert(types::file_views(kept@) =~= types::file_views(sofar).push(file@));
                assert(types::file_views(kept@) =~= before + all.take(i + 1).filter(keep));
            }
        }
        i = i + 1;
    }
    assert(all.take(i as int) =~= all);
}

/// The files of one table that a checkpoint at `epoch` keeps, by ascending epoch.
fn keep_in_table(
    epochs: &BTreeMap<u32, Vec<ParquetStoreData>>,
    table: &TableDescriptor,
    epoch: u32,
    watermark: Option<u64>,
) -> (kept: Vec<ParquetStoreData>)
    requires
        table_decidable(epoch_views(epochs@), table@, epoch, watermark),
    ensures
        types::file_views(kept@) == kept_in_table(
            epoch_views(epochs@),
            table@,
            epoch,
            watermark,
        ),
{
    let ghost views = epoch_views(epochs@);
    let ghost keys = ordered::ordered_keys(views.dom());
    let ghost pick = |key: u32| kept_under(views[key], table@, key, epoch, watermark);
    let ghost lists = keys.map_values(pick);
    assert(views.dom() =~= epochs@.dom());
    let list: Vec<(u32, &Vec<ParquetStoreData>)> = ordered::entries(epochs);
    let mut kept: Vec<ParquetStoreData> = Vec::new();
    let mut i: usize = 0;
    assert(types::file_views(kept@) =~= ordered::concat(lists.take(0)));
    while i < list.len()
        invariant
            i <= list@.len(),
            views == epoch_views(epochs@),
            list@.len() == keys.len(),
            lists == keys.map_values(pick),
            pick == (|key: u32| kept_under(views[key], table@, key, epoch, watermark)),
            forall|j: int|
                0 <= j < list@.len() ==> {
                    &&& (#[trigger] list@[j]).0 == keys[j]
                    &&& epochs@.contains_key(list@[j].0)
                    &&& *list@[j].1 == epochs@[list@[j].0]
                },
            table_decidable(views, table@, epoch, watermark),
            types::file_views(kept@) == ordered::concat(lists.take(i as int)),
        decreases list.len() - i,
    {
        let key: u32 = list[i].0;
        let files: &Vec<ParquetStoreData> = list[i].1;
        proof {
            assert(list@[i as int].0 == keys[i as int]);
            assert(views.contains_key(key));
            assert(views[key] == types::file_views(files@));
            assert(lists[i as int] == pick(key));
            ordered::lemma_concat_push(lists.take(i as int), lists[i as int]);
            assert(lists.take(i as int).push(lists[i as int]) =~= lists.take(i + 1));
        }
        keep_under(files, table, key, epoch, watermark, &mut kept);
        i = i + 1;
    }
    assert(lists.take(i as int) =~= lists);
    kept
}

/// Whether it matters to a checkpoint at `epoch` how old the files of a table are.
fn cutoff_needed(
    epochs: &BTreeMap<u32, Vec<ParquetStoreData>>,
    table: &TableDescriptor,
    epoch: u32,
) -> (needed: bool)
    ensures
        needed == needs_cutoff(epoch_views(epochs@), table@, epoch),
{
    if table.delete_behavior != TableDeleteBehavior::NoReadsBeforeWatermark {
        return false;
    }
    let ghost views = epoch_views(epochs@);
    let list: Vec<(u32, &Vec<ParquetStoreData>)> = ordered::entries(epochs);
    let mut i: usize = 0;
    while i < list.len()
        invariant
            i <= list@.len(),
            views == epoch_views(epochs@),
            table.delete_behavior == TableDeleteBehavior::NoReadsBeforeWatermark,
            list@.len() == ordered::ordered_keys(epochs@.dom()).len(),
            forall|j: int|
                0 <= j < list@.len() ==> {
                    &&& (#[trigger] list@[j]).0 == ordered::ordered_keys(epochs@.dom())[j]
                    &&& epochs@.contains_key(list@[j].0)
                    &&& *list@[j].1 == epochs@[list@[j].0]
                },
            forall|j: int|
                0 <= j < i ==> is_superseded(table@, (#[trigger] list@[j]).0, epoch)
                    || views[list@[j].0].len() == 0,
        decreases list.len() - i,
    {
        let key: u32 = list[i].0;
        let files: &Vec<ParquetStoreData> = list[i].1;
        assert(views.contains_key(key) && views[key].len() == files@.len());
        if !(table.table_type == TableType::Global && key < epoch) && files.len() > 0 {
            return true;
        }
        i = i + 1;
    }
    proof {
        ordered::lemma_keys_below(epochs@.dom(), 0x1_0000_0000);
        assert forall|key: u32| #[trigger] views.contains_key(key) implies is_superseded(
            table@,
            key,
            epoch,
        ) || views[key].len() == 0 by {
            let keys = ordered::ordered_keys(epochs@.dom());
            assert(keys.contains(key));
            let j = keys.index_of(key);
            assert(list@[j].0 == key);
        }
    }
    false
}

/// State files by table and then by epoch.
pub struct FileMap {
    tables: BTreeMap<u32, BTreeMap<u32, Vec<ParquetStoreData>>>,
}

impl View for FileMap {
    type V = Map<u32, Map<u32, Seq<types::StoredFile>>>;

    closed spec fn view(&self) -> Map<u32, Map<u32, Seq<types::StoredFile>>> {
        self.tables@.map_values(|m: BTreeMap<u32, Vec<ParquetStoreData>>| epoch_views(m@))
    }
}

impl FileMap {
    /// No files.
    pub fn new() -> (files: FileMap)
        ensures
            files@ == Map::<u32, Map<u32, Seq<types::StoredFile>>>::empty(),
    {
        let files = FileMap { tables: BTreeMap::new() };
        assert(files@ =~= Map::empty());
        files
    }

    /// Puts `file` behind the files that stand under its table and `epoch`.
    pub fn push(&mut self, table: char, epoch: u32, file: ParquetStoreData)
        ensures
            final(self)@ == with_file(old(self)@, tables::table_code(table), epoch, file@),
    {
        let code: u32 = table as u32;
        let mut epochs: BTreeMap<u32, Vec<ParquetStoreData>> = match self.tables.remove(&code) {
            Some(epochs) => epochs,
            None => BTreeMap::new(),
        };
        let ghost before = epoch_views(epochs@);
        assert(before =~= if old(self)@.contains_key(code) {
            old(self)@[code]
        } else {
            Map::empty()
        });
        let mut list: Vec<ParquetStoreData> = match epochs.remove(&epoch) {
            Some(list) => list,
            None => Vec::new(),
        };
        let ghost list_before = types::file_views(list@);
        assert(list_before =~= if before.contains_key(epoch) {
            before[epoch]
        } else {
            Seq::empty()
        });
        let ghost view = file@;
        list.push(file);
        proof {
            assert(types::file_views(list@) =~= list_before.push(view));
        }
        epochs.insert(epoch, list);
        proof {
            assert(epoch_views(epochs@) =~= before.insert(epoch, list_before.push(view)));
        }
        self.tables.insert(code, epochs);
        proof {
            assert(self@ =~= with_file(old(self)@, code, epoch, view));
        }
    }

    /// Where the files of `table` lie, by ascending epoch.
    pub fn paths(&self, table: char) -> (paths: Vec<String>)
        ensures
            types::string_views(paths@) == types::paths_of(
                files_of(self@, tables::table_code(table)),
            ),
    {
        let mut paths: Vec<String> = Vec::new();
        let code: u32 = table as u32;
        let epochs: &BTreeMap<u32, Vec<ParquetStoreData>> = match self.tables.get(&code) {
            Some(epochs) => epochs,
            None => {
                assert(types::string_views(paths@) =~= types::paths_of(Seq::empty()));
                return paths;
            },
        };
        let ghost views = epoch_views(epochs@);
        let ghost lists = ordered::ordered_values(views);
        assert(views.dom() =~= epochs@.dom());
        let list: Vec<(u32, &Vec<ParquetStoreData>)> = ordered::entries(epochs);
        let mut i: usize = 0;
        assert(types::string_views(paths@) =~= types::paths_of(ordered::concat(lists.take(0))));
        while i < list.len()
            invariant
                i <= list@.len(),
                views == epoch_views(epochs@),
                lists == ordered::ordered_values(views),
                list@.len() == lists.len(),
                forall|j: int|
                    0 <= j < list@.len() ==> types::file_views((#[trigger] list@[j]).1@)
                        == lists[j],
                types::string_views(paths@) == types::paths_of(
                    ordered::concat(lists.take(i as int)),
                ),
            decreases list.len() - i,
        {
            let files: &Vec<ParquetStoreData> = list[i].1;
            let ghost before = ordered::concat(lists.take(i as int));
            let ghost all = types::file_views(files@);
            assert(all == lists[i as int]);
            let mut k: usize = 0;
            assert(before =~= before + all.take(0));
            while k < files.len()
                invariant
                    k <= files@.len(),
                    all == types::file_views(files@),
                    types::string_views(paths@) == types::paths_of(before + all.take(k as int)),
                decreases files.len() - k,
            {
                let ghost sofar = paths@;
                paths.push(files[k].file.clone());
                proof {
                    let file = all[k as int];
                    assert(before + all.take(k + 1) =~= (before + all.take(k as int)).push(file));
                    assert(types::string_views(paths@) =~= types::string_views(sofar).push(
                        file.file,
                    ));
                    assert(types::paths_of(before + all.take(k + 1)) =~= types::paths_of(
                        before + all.take(k as int),
                    ).push(file.file));
                }
                k = k + 1;
            }
            proof {
                assert(all.take(k as int) =~= all);
                ordered::lemma_concat_push(lists.take(i as int), all);
                assert(lists.take(i as int).push(all) =~= lists.take(i + 1));
            }
            i = i + 1;
        }
        assert(lists.take(i as int) =~= lists);
        paths
    }

    /// Whether a checkpoint at `epoch` can tell which files to keep.
    pub fn can_retain(&self, tables: &TableIndex, epoch: u32, watermark: Option<u64>) -> (can: bool)
        ensures
            can == is_decidable(self@, tables@, epoch, watermark),
    {
        let list: Vec<(u32, &BTreeMap<u32, Vec<ParquetStoreData>>)> = ordered::entries(
            &self.tables,
        );
        let mut i: usize = 0;
        while i < list.len()
            invariant
                i <= list@.len(),
                list@.len() == ordered::ordered_keys(self.tables@.dom()).len(),
                forall|j: int|
                    0 <= j < list@.len() ==> {
                        &&& (#[trigger] list@[j]).0 == ordered::ordered_keys(
                            self.tables@.dom(),
                        )[j]
                        &&& self.tables@.contains_key(list@[j].0)
                        &&& *list@[j].1 == self.tables@[list@[j].0]
                    },
                forall|j: int|
                    0 <= j < i ==> tables@.contains_key((#[trigger] list@[j]).0)
                        && table_decidable(
                        self@[list@[j].0],
                        tables@[list@[j].0],
                        epoch,
                        watermark,
                    ),
            decreases list.len() - i,
        {
            let code: u32 = list[i].0;
            let epochs: &BTreeMap<u32, Vec<ParquetStoreData>> = list[i].1;
            assert(self@.contains_key(code));
            assert(self@[code] == epoch_views(epochs@));
            match tables.get_code(code) {
                Some(table) => {
                    if cutoff_needed(epochs, table, epoch) {
                        match watermark {
                            Some(w) => {
                                if w < table.retention_micros {
                                    return false;
                                }
                            },
                            None => {},
                        }
                    }
                },
                None => {
                    return false;
                },
            }
            i = i + 1;
        }
        proof {
            ordered::lemma_keys_below(self.tables@.dom(), 0x1_0000_0000);
            assert forall|t: u32| #[trigger] self@.contains_key(t) implies tables@.contains_key(t)
                && table_decidable(self@[t], tables@[t], epoch, watermark) by {
                let keys = ordered::ordered_keys(self.tables@.dom());
                assert(keys.contains(t));
                let j = keys.index_of(t);
                assert(list@[j].0 == t);
            }
        }
        true
    }

    /// Drops the files that a checkpoint at `epoch` does not need, and puts all others under
    /// its epoch. The files that stay are returned, table by table.
    pub fn retain(&mut self, tables: &TableIndex, epoch: u32, watermark: Option<u64>) -> (kept: Vec<
        ParquetStoreData,
    >)
        requires
            is_decidable(old(self)@, tables@, epoch, watermark),
        ensures
            types::file_views(kept@) == kept_files(old(self)@, tables@, epoch, watermark),
            final(self)@ == retained(old(self)@, tables@, epoch, watermark),
    {
        let ghost files = self@;
        let ghost keys = ordered::ordered_keys(files.dom());
        let ghost pick = |t: u32| kept_in_table(files[t], tables@[t], epoch, watermark);
        let ghost lists = keys.map_values(pick);
        let mut kept: Vec<ParquetStoreData> = Vec::new();
        let mut new_files: FileMap = FileMap::new();
        let list: Vec<(u32, &BTreeMap<u32, Vec<ParquetStoreData>>)> = ordered::entries(
            &self.tables,
        );
        let mut i: usize = 0;
        proof {
            assert(files.dom() =~= self.tables@.dom());
            ordered::lemma_keys_below(files.dom(), 0x1_0000_0000);
            assert(types::file_views(kept@) =~= ordered::concat(lists.take(0)));
        }
        while i < list.len()
            invariant
                i <= list@.len(),
                files == self@,
                list@.len() == keys.len(),
                lists == keys.map_values(pick),
                pick == (|t: u32| kept_in_table(files[t], tables@[t], epoch, watermark)),
                forall|j: int, k: int| 0 <= j < k < keys.len() ==> keys[j] < keys[k],
                forall|j: int|
                    0 <= j < list@.len() ==> {
                        &&& (#[trigger] list@[j]).0 == keys[j]
                        &&& self.tables@.contains_key(list@[j].0)
                        &&& *list@[j].1 == self.tables@[list@[j].0]
                    },
                is_decidable(files, tables@, epoch, watermark),
                types::file_views(kept@) == ordered::concat(lists.take(i as int)),
                forall|t: u32| #[trigger]
                    new_files@.contains_key(t) <==> keys.take(i as int).contains(t) && pick(t).len()
                        > 0,
                forall|t: u32| #[trigger]
                    new_files@.contains_key(t) ==> new_files@[t] == Map::empty().insert(
                        epoch,
                        pick(t),
                    ),
            decreases list.len() - i,
        {
            let code: u32 = list[i].0;
            let epochs: &BTreeMap<u32, Vec<ParquetStoreData>> = list[i].1;
            let ghost before = kept@;
            let ghost new_before = new_files@;
            proof {
                assert(list@[i as int].0 == keys[i as int]);
                assert(files.contains_key(code));
                assert(files[code] == epoch_views(epochs@));
                assert(lists[i as int] == pick(code));
                ordered::lemma_concat_push(lists.take(i as int), lists[i as int]);
                assert(lists.take(i as int).push(lists[i as int]) =~= lists.take(i + 1));
                assert forall|t: u32| #[trigger] keys.take(i + 1).contains(t) <==> keys.take(
                    i as int,
                ).contains(t) || t == code by {
                    if keys.take(i as int).contains(t) {
                        let j = keys.take(i as int).index_of(t);
                        assert(keys.take(i + 1)[j] == t);
                    }
                    assert(keys.take(i + 1)[i as int] == code);
                    if keys.take(i + 1).contains(t) {
                        let j = keys.take(i + 1).index_of(t);
                        if j < i {
                            assert(keys.take(i as int)[j] == t);
                        }
                    }
                }
            }
            match tables.get_code(code) {
                Some(table) => {
                    let in_table: Vec<ParquetStoreData> = keep_in_table(
                        epochs,
                        table,
                        epoch,
                        watermark,
                    );
                    let ghost chosen = types::file_views(in_table@);
                    let mut copy: Vec<ParquetStoreData> = copy_files(&in_table);
                    kept.append(&mut copy);
                    assert(types::file_views(kept@) =~= types::file_views(before) + chosen);
                    if in_table.len() > 0 {
                        let mut under_epoch: BTreeMap<u32, Vec<ParquetStoreData>> =
                            BTreeMap::new();
                        under_epoch.insert(epoch, in_table);
                        assert(epoch_views(under_epoch@) =~= Map::empty().insert(epoch, chosen));
                        new_files.tables.insert(code, under_epoch);
                        assert(new_files@ =~= new_before.insert(
                            code,
                            Map::empty().insert(epoch, chosen),
                        ));
                    }
                },
                None => {
                    assert(false);
                },
            }
            i = i + 1;
        }
        proof {
            assert(lists.take(i as int) =~= lists);
            assert(keys.take(i as int) =~= keys);
            assert(new_files@ =~= retained(files, tables@, epoch, watermark));
        }
        *self = new_files;
        kept
    }
}

/// A copy of a list of files.
fn copy_files(files: &Vec<ParquetStoreData>) -> (copy: Vec<ParquetStoreData>)
    ensures
        types::file_views(copy@) == types::file_views(files@),
{
    let mut copy: Vec<ParquetStoreData> = Vec::new();
    let mut i: usize = 0;
    while i < files.len()
        invariant
            i <= files@.len(),
            copy@.len() == i,
            forall|j: int| 0 <= j < i ==> (#[trigger] copy@[j])@ == files@[j]@,
        decreases files.len() - i,
    {
        copy.push(files[i].clone());
        i = i + 1;
    }
    assert(types::file_views(copy@) =~= types::file_views(files@));
    copy
}

impl Clone for FileMap {
    fn clone(&self) -> (copy: Self)
        ensures
            copy@ == self@,
    {
        FileMap { tables: self.tables.clone() }
    }
}

/// All of `files`, table by table and by ascending epoch.
pub open spec fn all_files(files: Map<u32, Map<u32, Seq<types::StoredFile>>>) -> Seq<
    types::StoredFile,
> {
    ordered::concat(
        ordered::ordered_keys(files.dom()).map_values(|t: u32| in_epoch_order(files[t])),
    )
}

/// What stands under one epoch.
pub open spec fn under(epochs: Map<u32, Seq<types::StoredFile>>, epoch: u32) -> Seq<
    types::StoredFile,
> {
    if epochs.contains_key(epoch) {
        epochs[epoch]
    } else {
        Seq::empty()
    }
}

/// What stands under one table and epoch.
pub open spec fn filed_under(
    files: Map<u32, Map<u32, Seq<types::StoredFile>>>,
    table: u32,
    epoch: u32,
) -> Seq<types::StoredFile> {
    if files.contains_key(table) {
        under(files[table], epoch)
    } else {
        Seq::empty()
    }
}

/// The files of a table are those under each epoch, one epoch behind the other.
pub proof fn lemma_by_epoch(epochs: Map<u32, Seq<types::StoredFile>>)
    ensures
        in_epoch_order(epochs) == ordered::lists_below(
            |k: u32| under(epochs, k),
            0x1_0000_0000,
        ),
{
    ordered::lemma_lists_below(
        epochs.dom(),
        |k: u32| epochs[k],
        |k: u32| under(epochs, k),
        0x1_0000_0000,
    );
}

/// A file that is stored under the latest epoch of its table comes last among the files of the
/// table; the files of the other tables stay as they are.
pub proof fn new_files_come_last(
    files: Map<u32, Map<u32, Seq<types::StoredFile>>>,
    table: u32,
    epoch: u32,
    file: types::StoredFile,
)
    requires
        forall|k: u32|
            files.contains_key(table) && #[trigger] files[table].contains_key(k) ==> k <= epoch,
    ensures
        files_of(with_file(files, table, epoch, file), table) == files_of(files, table).push(file),
        forall|t: u32|
            t != table ==> #[trigger] files_of(with_file(files, table, epoch, file), t)
                == files_of(files, t),
{
    let epochs = if files.contains_key(table) {
        files[table]
    } else {
        Map::empty()
    };
    let longer = with_file(files, table, epoch, file)[table];
    lemma_by_epoch(epochs);
    lemma_by_epoch(longer);
    ordered::lemma_last_item(
        |k: u32| under(epochs, k),
        |k: u32| under(longer, k),
        epoch,
        file,
        0x1_0000_0000,
    );
    if !files.contains_key(table) {
        ordered::lemma_single_list(|k: u32| under(epochs, k), epoch, 0x1_0000_0000);
    }
}

proof fn lemma_single_epoch(epoch: u32, list: Seq<types::StoredFile>)
    ensures
        in_epoch_order(Map::empty().insert(epoch, list)) == list,
{
    let epochs = Map::empty().insert(epoch, list);
    lemma_by_epoch(epochs);
    ordered::lemma_single_list(|k: u32| under(epochs, k), epoch, 0x1_0000_0000);
}

/// What a checkpoint leaves of each table is what it keeps of it.
pub proof fn tables_are_left_with_what_is_kept(
    files: Map<u32, Map<u32, Seq<types::StoredFile>>>,
    tables: Map<u32, types::Table>,
    epoch: u32,
    watermark: Option<u64>,
    table: u32,
)
    ensures
        files_of(retained(files, tables, epoch, watermark), table) == if files.contains_key(table) {
            kept_in_table(files[table], tables[table], epoch, watermark)
        } else {
            Seq::empty()
        },
{
    lemma_single_epoch(epoch, kept_in_table(files[table], tables[table], epoch, watermark));
}

/// A checkpoint lists exactly the files that are left after it, in the same order.
pub proof fn checkpoints_list_what_is_left(
    files: Map<u32, Map<u32, Seq<types::StoredFile>>>,
    tables: Map<u32, types::Table>,
    epoch: u32,
    watermark: Option<u64>,
)
    ensures
        all_files(retained(files, tables, epoch, watermark)) == kept_files(
            files,
            tables,
            epoch,
            watermark,
        ),
{
    let left = retained(files, tables, epoch, watermark);
    let lists = |t: u32| files_of(left, t);
    assert forall|t: u32| #[trigger] files.contains_key(t) implies lists(t) == kept_in_table(
        files[t],
        tables[t],
        epoch,
        watermark,
    ) by {
        tables_are_left_with_what_is_kept(files, tables, epoch, watermark, t);
    }
    assert forall|t: u32| !#[trigger] files.dom().contains(t) implies lists(t) == Seq::<
        types::StoredFile,
    >::empty() by {
        assert(!left.contains_key(t));
    }
    ordered::lemma_lists_below(
        files.dom(),
        |t: u32| kept_in_table(files[t], tables[t], epoch, watermark),
        lists,
        0x1_0000_0000,
    );
    ordered::lemma_lists_below(
        left.dom(),
        |t: u32| in_epoch_order(left[t]),
        lists,
        0x1_0000_0000,
    );
}

proof fn lemma_kept_by_epoch(
    epochs: Map<u32, Seq<types::StoredFile>>,
    table: types::Table,
    epoch: u32,
    watermark: Option<u64>,
)
    ensures
        kept_in_table(epochs, table, epoch, watermark) == ordered::lists_below(
            |k: u32| kept_under(under(epochs, k), table, k, epoch, watermark),
            0x1_0000_0000,
        ),
{
    let lists = |k: u32| kept_under(under(epochs, k), table, k, epoch, watermark);
    assert forall|k: u32| !#[trigger] epochs.dom().contains(k) implies lists(k) == Seq::<
        types::StoredFile,
    >::empty() by {
        reveal(Seq::filter);
    }
    ordered::lemma_lists_below(
        epochs.dom(),
        |k: u32| kept_under(epochs[k], table, k, epoch, watermark),
        lists,
        0x1_0000_0000,
    );
}

/// Of a table that is not global, a checkpoint keeps exactly the files that are not expired,
/// in the order in which they stood.
pub proof fn ordinary_tables_lose_expired_files_alone(
    epochs: Map<u32, Seq<types::StoredFile>>,
    table: types::Table,
    epoch: u32,
    watermark: Option<u64>,
)
    requires
        table.table_type != TableType::Global,
    ensures
        kept_in_table(epochs, table, epoch, watermark) == in_epoch_order(epochs).filter(
            |f: types::StoredFile| !is_expired(table, watermark, f),
        ),
{
    let keep = |f: types::StoredFile| !is_expired(table, watermark, f);
    let all = |k: u32| under(epochs, k);
    lemma_by_epoch(epochs);
    lemma_kept_by_epoch(epochs, table, epoch, watermark);
    ordered::lemma_filter_lists(all, keep, 0x1_0000_0000);
    ordered::lemma_same_lists(
        |k: u32| all(k).filter(keep),
        |k: u32| kept_under(under(epochs, k), table, k, epoch, watermark),
        0x1_0000_0000,
    );
}

/// Of a global table, a checkpoint keeps nothing that was stored before it, and of what was
/// stored with it exactly the files that are not expired.
pub proof fn global_tables_keep_the_latest_files_alone(
    epochs: Map<u32, Seq<types::StoredFile>>,
    table: types::Table,
    epoch: u32,
    watermark: Option<u64>,
)
    requires
        table.table_type == TableType::Global,
        forall|k: u32| #[trigger] epochs.contains_key(k) ==> k <= epoch,
    ensures
        kept_in_table(epochs, table, epoch, watermark) == under(epochs, epoch).filter(
            |f: types::StoredFile| !is_expired(table, watermark, f),
        ),
{
    let lists = |k: u32| kept_under(under(epochs, k), table, k, epoch, watermark);
    assert forall|k: u32| k != epoch implies #[trigger] lists(k) == Seq::<
        types::StoredFile,
    >::empty() by {
        reveal(Seq::filter);
        if k > epoch {
            assert(!epochs.contains_key(k));
        }
    }
    lemma_kept_by_epoch(epochs, table, epoch, watermark);
    ordered::lemma_single_list(lists, epoch, 0x1_0000_0000);
}

/// A checkpoint keeps no file of a table that the table did not have.
pub proof fn nothing_is_kept_that_was_not_there(
    epochs: Map<u32, Seq<types::StoredFile>>,
    table: types::Table,
    epoch: u32,
    watermark: Option<u64>,
    file: types::StoredFile,
)
    requires
        kept_in_table(epochs, table, epoch, watermark).contains(file),
    ensures
        in_epoch_order(epochs).contains(file),
{
    let kept = |k: u32| kept_under(under(epochs, k), table, k, epoch, watermark);
    let all = |k: u32| under(epochs, k);
    lemma_kept_by_epoch(epochs, table, epoch, watermark);
    lemma_by_epoch(epochs);
    ordered::lemma_listed(kept, file, 0x1_0000_0000);
    ordered::lemma_listed(all, file, 0x1_0000_0000);
    let k = choose|k: u32| #[trigger] kept(k).contains(file);
    let list = kept(k);
    let i = choose|i: int| 0 <= i < list.len() && list[i] == file;
    lemma_filter_subset(
        under(epochs, k),
        |f: types::StoredFile| !is_expired(table, watermark, f),
        i,
    );
    assert(all(k).contains(file));
}

/// A filter lets nothing through that was not there.
pub proof fn lemma_filter_subset<A>(s: Seq<A>, keep: spec_fn(A) -> bool, i: int)
    requires
        0 <= i < s.filter(keep).len(),
    ensures
        s.contains(s.filter(keep)[i]),
    decreases s.len(),
{
    reveal(Seq::filter);
    if s.len() > 0 {
        let before = s.drop_last();
        if i < before.filter(keep).len() {
            lemma_filter_subset(before, keep, i);
            let j = choose|j: int| 0 <= j < before.len() && before[j] == before.filter(keep)[i];
            assert(s[j] == s.filter(keep)[i]);
        } else {
            assert(s[s.len() - 1] == s.filter(keep)[i]);
        }
    }
}

/// Whether the files of `list` stand in the order of the epochs at which they were written.
pub open spec fn is_chronological(list: Seq<types::StoredFile>) -> bool {
    forall|i: int, j: int|
        0 <= i <= j < list.len() ==> (#[trigger] list[i]).epoch <= (#[trigger] list[j]).epoch
}

/// Files that are left out do not change the order of the others.
pub proof fn lemma_filter_chronological(
    list: Seq<types::StoredFile>,
    keep: spec_fn(types::StoredFile) -> bool,
)
    requires
        is_chronological(list),
    ensures
        is_chronological(list.filter(keep)),
        forall|i: int|
            0 <= i < list.filter(keep).len() ==> list.contains(#[trigger] list.filter(keep)[i]),
    decreases list.len(),
{
    reveal(Seq::filter);
    if list.len() > 0 {
        let before = list.drop_last();
        assert forall|i: int, j: int| 0 <= i <= j < before.len() implies (
        #[trigger] before[i]).epoch <= (#[trigger] before[j]).epoch by {
            assert(before[i] == list[i] && before[j] == list[j]);
        }
        lemma_filter_chronological(before, keep);
        let rest = before.filter(keep);
        let all = list.filter(keep);
        assert forall|i: int| 0 <= i < all.len() implies list.contains(#[trigger] all[i]) by {
            if i < rest.len() {
                assert(all[i] == rest[i]);
                let j = choose|j: int| 0 <= j < before.len() && before[j] == rest[i];
                assert(list[j] == rest[i]);
            } else {
                assert(list[list.len() - 1] == all[i]);
            }
        }
        assert forall|i: int, j: int| 0 <= i <= j < all.len() implies (#[trigger] all[i]).epoch
            <= (#[trigger] all[j]).epoch by {
            if j < rest.len() {
                assert(all[i] == rest[i] && all[j] == rest[j]);
            } else {
                let k = choose|k: int| 0 <= k < list.len() && list[k] == all[i];
                assert(all[j] == list[list.len() - 1]);
                assert(list[k].epoch <= list[list.len() - 1].epoch);
            }
        }
    }
}

/// Where a walk finds files in the order in which they were written, it does so under each key.
proof fn lemma_lists_chronological(lists: spec_fn(u32) -> Seq<types::StoredFile>, bound: nat)
    requires
        bound <= 0x1_0000_0000,
        is_chronological(ordered::lists_below(lists, bound)),
    ensures
        forall|k: u32| k < bound ==> is_chronological(#[trigger] lists(k)),
    decreases bound,
{
    if bound > 0 {
        let last = (bound - 1) as u32;
        let before = ordered::lists_below(lists, last as nat);
        let all = ordered::lists_below(lists, bound);
        assert forall|i: int, j: int| 0 <= i <= j < before.len() implies (
        #[trigger] before[i]).epoch <= (#[trigger] before[j]).epoch by {
            assert(before[i] == all[i] && before[j] == all[j]);
        }
        lemma_lists_chronological(lists, last as nat);
        assert forall|k: u32| k < bound implies is_chronological(#[trigger] lists(k)) by {
            if k == last {
                let n = before.len();
                assert forall|i: int, j: int| 0 <= i <= j < lists(k).len() implies (
                #[trigger] lists(k)[i]).epoch <= (#[trigger] lists(k)[j]).epoch by {
                    assert(all[n + i] == lists(k)[i] && all[n + j] == lists(k)[j]);
                }
            }
        }
    }
}

/// After a checkpoint the files of each table stand in the order in which they were written,
/// if they stood so before it.
pub proof fn checkpoints_keep_the_order(
    files: Map<u32, Map<u32, Seq<types::StoredFile>>>,
    tables: Map<u32, types::Table>,
    epoch: u32,
    watermark: Option<u64>,
    table: u32,
)
    requires
        is_chronological(files_of(files, table)),
        forall|k: u32|
            files.contains_key(table) && #[trigger] files[table].contains_key(k) ==> k <= epoch,
    ensures
        is_chronological(files_of(retained(files, tables, epoch, watermark), table)),
{
    tables_are_left_with_what_is_kept(files, tables, epoch, watermark, table);
    if files.contains_key(table) {
        let epochs = files[table];
        let keep = |f: types::StoredFile| !is_expired(tables[table], watermark, f);
        if tables[table].table_type == TableType::Global {
            global_tables_keep_the_latest_files_alone(epochs, tables[table], epoch, watermark);
            lemma_by_epoch(epochs);
            lemma_lists_chronological(|k: u32| under(epochs, k), 0x1_0000_0000);
            assert(is_chronological((|k: u32| under(epochs, k))(epoch)));
            lemma_filter_chronological(under(epochs, epoch), keep);
        } else {
            ordinary_tables_lose_expired_files_alone(epochs, tables[table], epoch, watermark);
            lemma_filter_chronological(in_epoch_order(epochs), keep);
        }
    }
}

/// A file that is put under a table and an epoch comes last there, and nothing else changes.
pub proof fn filing_changes_one_place_alone(
    files: Map<u32, Map<u32, Seq<types::StoredFile>>>,
    table: u32,
    epoch: u32,
    file: types::StoredFile,
    other_table: u32,
    other_epoch: u32,
)
    ensures
        filed_under(with_file(files, table, epoch, file), table, epoch) == filed_under(
            files,
            table,
            epoch,
        ).push(file),
        other_table != table || other_epoch != epoch ==> filed_under(
            with_file(files, table, epoch, file),
            other_table,
            other_epoch,
        ) == filed_under(files, other_table, other_epoch),
{
}

/// The files of a table come epoch by epoch: those under an epoch behind all others come last,
/// as they stand there.
pub proof fn later_epochs_come_later(
    epochs: Map<u32, Seq<types::StoredFile>>,
    epoch: u32,
    list: Seq<types::StoredFile>,
)
    requires
        forall|k: u32| #[trigger] epochs.contains_key(k) ==> k < epoch,
    ensures
        in_epoch_order(Map::empty()) == Seq::<types::StoredFile>::empty(),
        in_epoch_order(epochs.insert(epoch, list)) == in_epoch_order(epochs) + list,
{
    let none = Map::<u32, Seq<types::StoredFile>>::empty();
    lemma_by_epoch(none);
    ordered::lemma_single_list(|k: u32| under(none, k), 0, 0x1_0000_0000);
    let longer = epochs.insert(epoch, list);
    lemma_by_epoch(epochs);
    lemma_by_epoch(longer);
    assert forall|k: u32| k >= epoch implies #[trigger] under(epochs, k) == Seq::<
        types::StoredFile,
    >::empty() by {
        assert(!epochs.contains_key(k));
    }
    let lists = |k: u32| under(epochs, k);
    ordered::lemma_last_list(lists, |k: u32| under(longer, k), epoch, 0x1_0000_0000);
}

/// The files of a table are those that stand under it at some epoch.
pub proof fn tables_have_what_is_filed_under_them(
    files: Map<u32, Map<u32, Seq<types::StoredFile>>>,
    table: u32,
    file: types::StoredFile,
)
    ensures
        files_of(files, table).contains(file) <==> exists|k: u32| #[trigger]
            filed_under(files, table, k).contains(file),
{
    if files.contains_key(table) {
        let lists = |k: u32| under(files[table], k);
        lemma_by_epoch(files[table]);
        ordered::lemma_listed(lists, file, 0x1_0000_0000);
        if exists|k: u32| #[trigger] filed_under(files, table, k).contains(file) {
            let k = choose|k: u32| #[trigger] filed_under(files, table, k).contains(file);
            assert(lists(k).contains(file));
        }
        if exists|k: u32| k < 0x1_0000_0000 && #[trigger] lists(k).contains(file) {
            let k = choose|k: u32| k < 0x1_0000_0000 && #[trigger] lists(k).contains(file);
            assert(filed_under(files, table, k).contains(file));
        }
    }
}

/// Of a table that is not global, a checkpoint leaves, in order, the files that are not past
/// their time: a file is, where the table drops what lies before the watermark, there is one, and
/// the latest timestamp of the file and the retention together do not reach it.
pub proof fn ordinary_tables_are_left_with_what_is_in_time(
    files: Map<u32, Map<u32, Seq<types::StoredFile>>>,
    tables: Map<u32, types::Table>,
    epoch: u32,
    watermark: Option<u64>,
    table: u32,
)
    requires
        tables[table].table_type != TableType::Global,
    ensures
        files_of(retained(files, tables, epoch, watermark), table) == files_of(
            files,
            table,
        ).filter(
            |f: types::StoredFile|
                tables[table].delete_behavior != TableDeleteBehavior::NoReadsBeforeWatermark || (
                watermark matches Some(time) ==> time <= f.max_timestamp_micros
                    + tables[table].retention_micros),
        ),
{
    let in_time = |f: types::StoredFile|
        tables[table].delete_behavior != TableDeleteBehavior::NoReadsBeforeWatermark || (
        watermark matches Some(time) ==> time <= f.max_timestamp_micros
            + tables[table].retention_micros);
    let kept = |f: types::StoredFile| !is_expired(tables[table], watermark, f);
    assert(in_time =~= kept);
    tables_are_left_with_what_is_kept(files, tables, epoch, watermark, table);
    if files.contains_key(table) {
        ordinary_tables_lose_expired_files_alone(files[table], tables[table], epoch, watermark);
    } else {
        reveal(Seq::filter);
    }
}

/// Of a global table, a checkpoint leaves what was stored with it and is not past its time,
/// whatever was there before.
pub proof fn global_tables_are_left_with_what_is_new(
    files: Map<u32, Map<u32, Seq<types::StoredFile>>>,
    tables: Map<u32, types::Table>,
    epoch: u32,
    watermark: Option<u64>,
    table: u32,
)
    requires
        tables[table].table_type == TableType::Global,
        forall|k: u32| k > epoch ==> (#[trigger] filed_under(files, table, k)).len() == 0,
    ensures
        files_of(retained(files, tables, epoch, watermark), table) == filed_under(
            files,
            table,
            epoch,
        ).filter(
            |f: types::StoredFile|
                tables[table].delete_behavior != TableDeleteBehavior::NoReadsBeforeWatermark || (
                watermark matches Some(time) ==> time <= f.max_timestamp_micros
                    + tables[table].retention_micros),
        ),
{
    let in_time = |f: types::StoredFile|
        tables[table].delete_behavior != TableDeleteBehavior::NoReadsBeforeWatermark || (
        watermark matches Some(time) ==> time <= f.max_timestamp_micros
            + tables[table].retention_micros);
    let kept = |f: types::StoredFile| !is_expired(tables[table], watermark, f);
    assert(in_time =~= kept);
    tables_are_left_with_what_is_kept(files, tables, epoch, watermark, table);
    if files.contains_key(table) {
        let epochs = files[table];
        let lists = |k: u32| kept_under(under(epochs, k), tables[table], k, epoch, watermark);
        assert forall|k: u32| k != epoch implies #[trigger] lists(k) == Seq::<
            types::StoredFile,
        >::empty() by {
            reveal(Seq::filter);
            if k > epoch {
                assert(filed_under(files, table, k).len() == 0);
            }
        }
        lemma_kept_by_epoch(epochs, tables[table], epoch, watermark);
        ordered::lemma_single_list(lists, epoch, 0x1_0000_0000);
    } else {
        reveal(Seq::filter);
    }
}

/// No file is left after a checkpoint, in a table of whichever type, that is past its time: where
/// the table drops what lies before the watermark, the latest timestamp of each file that is left
/// and the retention together reach it.
pub proof fn nothing_is_left_past_its_time(
    files: Map<u32, Map<u32, Seq<types::StoredFile>>>,
    tables: Map<u32, types::Table>,
    epoch: u32,
    time: u64,
    table: u32,
    file: types::StoredFile,
)
    requires
        tables[table].delete_behavior == TableDeleteBehavior::NoReadsBeforeWatermark,
        files_of(retained(files, tables, epoch, Some(time)), table).contains(file),
    ensures
        file.max_timestamp_micros + tables[table].retention_micros >= time,
{
    tables_are_left_with_what_is_kept(files, tables, epoch, Some(time), table);
    let descriptor = tables[table];
    let lists = |k: u32|
        kept_under(under(files[table], k), descriptor, k, epoch, Some(time));
    lemma_kept_by_epoch(files[table], descriptor, epoch, Some(time));
    ordered::lemma_listed(lists, file, 0x1_0000_0000);
    let k = choose|k: u32| #[trigger] lists(k).contains(file);
    let list = lists(k);
    let i = choose|i: int| 0 <= i < list.len() && list[i] == file;
    under(files[table], k).lemma_filter_pred(
        |f: types::StoredFile| !is_expired(descriptor, Some(time), f),
        i,
    );
}

/// A file stays, and is listed by the checkpoint, unless its table is global and it was stored
/// before, or it is past its time.
pub proof fn nothing_is_dropped_before_its_time(
    files: Map<u32, Map<u32, Seq<types::StoredFile>>>,
    tables: Map<u32, types::Table>,
    epoch: u32,
    watermark: Option<u64>,
    table: u32,
    stored: u32,
    file: types::StoredFile,
)
    requires
        filed_under(files, table, stored).contains(file),
        tables[table].table_type == TableType::Global ==> epoch <= stored,
        tables[table].delete_behavior != TableDeleteBehavior::NoReadsBeforeWatermark || (
        watermark matches Some(time) ==> time <= file.max_timestamp_micros
            + tables[table].retention_micros),
    ensures
        files_of(retained(files, tables, epoch, watermark), table).contains(file),
        kept_files(files, tables, epoch, watermark).contains(file),
{
    let descriptor = tables[table];
    let keep = |f: types::StoredFile| !is_expired(descriptor, watermark, f);
    let lists = |k: u32| kept_under(under(files[table], k), descriptor, k, epoch, watermark);
    let list = under(files[table], stored);
    let i = choose|i: int| 0 <= i < list.len() && list[i] == file;
    list.lemma_filter_contains(keep, i);
    assert(lists(stored).contains(file));
    lemma_kept_by_epoch(files[table], descriptor, epoch, watermark);
    ordered::lemma_listed(lists, file, 0x1_0000_0000);
    tables_are_left_with_what_is_kept(files, tables, epoch, watermark, table);
    let left = retained(files, tables, epoch, watermark);
    let by_table = |t: u32| files_of(left, t);
    assert(by_table(table).contains(file));
    checkpoints_list_what_is_left(files, tables, epoch, watermark);
    ordered::lemma_lists_below(
        left.dom(),
        |t: u32| in_epoch_order(left[t]),
        by_table,
        0x1_0000_0000,
    );
    ordered::lemma_listed(by_table, file, 0x1_0000_0000);
}

/// A checkpoint lists nothing that is not left in some table after it.
pub proof fn nothing_is_listed_that_is_not_left(
    files: Map<u32, Map<u32, Seq<types::StoredFile>>>,
    tables: Map<u32, types::Table>,
    epoch: u32,
    watermark: Option<u64>,
    file: types::StoredFile,
)
    requires
        kept_files(files, tables, epoch, watermark).contains(file),
    ensures
        exists|t: u32| #[trigger]
            files_of(retained(files, tables, epoch, watermark), t).contains(file) && files_of(
                files,
                t,
            ).contains(file),
{
    let left = retained(files, tables, epoch, watermark);
    let by_table = |t: u32| files_of(left, t);
    checkpoints_list_what_is_left(files, tables, epoch, watermark);
    ordered::lemma_lists_below(
        left.dom(),
        |t: u32| in_epoch_order(left[t]),
        by_table,
        0x1_0000_0000,
    );
    ordered::lemma_listed(by_table, file, 0x1_0000_0000);
    let t = choose|t: u32| #[trigger] by_table(t).contains(file);
    assert(files_of(left, t).contains(file));
    tables_are_left_with_what_is_kept(files, tables, epoch, watermark, t);
    nothing_is_kept_that_was_not_there(files[t], tables[t], epoch, watermark, file);
}

/// What is left after a checkpoint stands under its epoch, and under no other.
pub proof fn what_is_left_stands_under_the_epoch(
    files: Map<u32, Map<u32, Seq<types::StoredFile>>>,
    tables: Map<u32, types::Table>,
    epoch: u32,
    watermark: Option<u64>,
    table: u32,
    other: u32,
)
    ensures
        filed_under(retained(files, tables, epoch, watermark), table, epoch) == files_of(
            retained(files, tables, epoch, watermark),
            table,
        ),
        other != epoch ==> filed_under(
            retained(files, tables, epoch, watermark),
            table,
            other,
        ).len() == 0,
{
    tables_are_left_with_what_is_kept(files, tables, epoch, watermark, table);
}

/// A checkpoint can tell what to keep exactly where each table that has files is known, and where
/// a table of which files are to be measured against the watermark has a retention that is not
/// greater than it. Files of a global table that were stored before are not measured.
pub proof fn checkpoints_can_tell_what_to_keep(
    files: Map<u32, Map<u32, Seq<types::StoredFile>>>,
    tables: Map<u32, types::Table>,
    epoch: u32,
    watermark: Option<u64>,
)
    ensures
        is_decidable(files, tables, epoch, watermark) <==> {
            &&& files.dom().subset_of(tables.dom())
            &&& forall|t: u32, k: u32|
                #![trigger filed_under(files, t, k)]
                filed_under(files, t, k).len() > 0 && tables[t].delete_behavior
                    == TableDeleteBehavior::NoReadsBeforeWatermark && (tables[t].table_type
                    == TableType::Global ==> epoch <= k) ==> (watermark matches Some(time)
                    ==> tables[t].retention_micros <= time)
        },
{
    let raw = {
        &&& files.dom().subset_of(tables.dom())
        &&& forall|t: u32, k: u32|
            #![trigger filed_under(files, t, k)]
            filed_under(files, t, k).len() > 0 && tables[t].delete_behavior
                == TableDeleteBehavior::NoReadsBeforeWatermark && (tables[t].table_type
                == TableType::Global ==> epoch <= k) ==> (watermark matches Some(time)
                ==> tables[t].retention_micros <= time)
    };
    if is_decidable(files, tables, epoch, watermark) {
        assert forall|t: u32| files.dom().contains(t) implies tables.dom().contains(t) by {
            assert(files.contains_key(t));
        }
        assert forall|t: u32, k: u32|
            #![trigger filed_under(files, t, k)]
            filed_under(files, t, k).len() > 0 && tables[t].delete_behavior
                == TableDeleteBehavior::NoReadsBeforeWatermark && (tables[t].table_type
                == TableType::Global ==> epoch <= k) implies (watermark matches Some(time)
            ==> tables[t].retention_micros <= time) by {
            assert(files.contains_key(t));
            assert(files[t].contains_key(k));
            assert(table_decidable(files[t], tables[t], epoch, watermark));
        }
    }
    if raw {
        assert forall|t: u32| #[trigger] files.contains_key(t) implies tables.contains_key(t)
            && table_decidable(files[t], tables[t], epoch, watermark) by {
            assert(files.dom().contains(t));
            if needs_cutoff(files[t], tables[t], epoch) && watermark is Some {
                let k = choose|k: u32| #[trigger]
                    files[t].contains_key(k) && !is_superseded(tables[t], k, epoch)
                        && files[t][k].len() > 0;
                assert(filed_under(files, t, k).len() > 0);
            }
        }
    }
}

} // verus!
