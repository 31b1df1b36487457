//! What an audit finds in a store as an engine leaves it: nothing.
use super::audit::{audits, is_on_disk, SuppliedKey};
use super::sound_laws::{
    a_sound_store_audits_healthy, data_dir, sound_data, sound_dir, sound_key, sound_log, sound_logic, sound_root,
};
use super::table_laws::{a_written_table_audits_clean, audits_clean};
use super::{holds_kind, strays_in, tables_in, FileKind, Listed, VerifyMode, VerifyReport};
use crate::error::EngineError;
use crate::store::engine::durable::{
    any_calls_keep_the_store_durable, durable, log_after, manifest_after, runs, Call, Origin,
};
use crate::store::engine::{Engine, StoreFiles};
use crate::store::files::{gives_list, gives_manifest, DirEntry, ReadFault, SstManifest, StoreAudit};
use crate::store::layers::layered;
use crate::store::rows::{put_rows, Row};
use crate::store::sst_block::roundtrip::gives_back;
use crate::store::sst_block::write::{split_blocks, writes_new, written, Sections, WrittenSst};
use crate::store::sst_block::{BlockSstFile, SstWriter};
use crate::store::trace::Step;
use crate::store::verify_logical::{FtsPrefixes, IndexCodec};
use crate::store::version::ids_of;
use std::sync::Arc;
use vstd::prelude::*;

verus! {

/// `file` holds the rows `run` as `writer` wrote them, in these sections, and
/// the codec decodes what it encoded.
pub open spec fn stands_as_written<W: SstWriter, F: StoreAudit>(
    writer: &W,
    disk: &F,
    encrypted: bool,
    file: BlockSstFile,
    run: Seq<Row>,
    dir: &str,
    block_size: u32,
    sections: Sections,
    w: WrittenSst,
) -> bool {
    &&& writes_new(writer, dir@, file.id, run, block_size, Ok(w))
    &&& written(writer, dir, file.id, run, block_size, sections, w.file)
    &&& w.file == file
    &&& w.bytes@ == sections.file()
    &&& gives_back(disk, file, sections, split_blocks(run, block_size as nat))
    &&& forall|p: &str, o: Result<(), String>|
        p@ == file.path@ && #[trigger] call_ensures(F::open_table, (disk, p), o) ==> o is Ok
    &&& forall|lens: (u64, u64)| #[trigger]
        call_ensures(F::section_lens, (disk, encrypted), lens) ==> lens.0 == sections.header.len() && lens.1
            == sections.footer.len()
}

/// `file` holds the rows `run` as it was written.
pub open spec fn is_written_table<W: SstWriter, F: StoreAudit>(
    writer: &W,
    disk: &F,
    encrypted: bool,
    file: BlockSstFile,
    run: Seq<Row>,
) -> bool {
    exists|dir: &str, block_size: u32, sections: Sections, w: WrittenSst| #[trigger]
        stands_as_written(writer, disk, encrypted, file, run, dir, block_size, sections, w)
}

/// What a listing says of a table.
pub open spec fn listed_as(file: BlockSstFile) -> Listed {
    Listed { id: file.id, path: file.path@, len: file.file_bytes }
}

/// A listing holds the files of a store that was left with the tables `ssts`,
/// and nothing else.
pub open spec fn lists_left<F: StoreAudit>(
    disk: &F,
    supplied: SuppliedKey<'_>,
    generation: u64,
    ssts: Seq<Arc<BlockSstFile>>,
    entries: Seq<DirEntry>,
) -> bool {
    let dir = data_dir(generation);
    &&& strays_in(dir, entries).len() == 0
    &&& sound_key(disk, supplied, dir, generation, entries)
    &&& holds_kind(entries, FileKind::Wal)
    &&& tables_in(dir, entries).len() == ssts.len()
    &&& forall|i: int| 0 <= i < ssts.len() ==> #[trigger] tables_in(dir, entries)[i] == listed_as(*ssts[i])
}

/// The disk gives back what the steps left on it: the tables `ssts` with the
/// rows `tables_rows`, the log and the manifest.
pub open spec fn gives_back_all<W: SstWriter, F: StoreAudit>(
    writer: &W,
    disk: &F,
    supplied: SuppliedKey<'_>,
    store_id: u128,
    generation: u64,
    ssts: Seq<Arc<BlockSstFile>>,
    tables_rows: Seq<Seq<Row>>,
    log: Seq<Row>,
    live: Seq<u64>,
) -> bool {
    let dir = data_dir(generation);
    &&& forall|l: Result<Vec<DirEntry>, EngineError>| #[trigger]
        gives_list(disk, dir, l) ==> (l matches Ok(entries) && lists_left(disk, supplied, generation, ssts, entries@))
    &&& sound_log(disk, dir, Some(store_id), log)
    &&& forall|m: Result<SstManifest, ReadFault>| #[trigger]
        gives_manifest(disk, dir, m) ==> (m matches Ok(manifest) && manifest.live_sst_ids@ == live)
    &&& tables_rows.len() == ssts.len()
    &&& forall|i: int| 0 <= i < ssts.len() ==> is_written_table(
        writer,
        disk,
        supplied is Some,
        *(#[trigger] ssts[i]),
        tables_rows[i],
    )
}

proof fn lemma_left_table_is_clean<W: SstWriter, F: StoreAudit>(
    writer: &W,
    disk: &F,
    file: BlockSstFile,
    run: Seq<Row>,
    mode: VerifyMode,
    encrypted: bool,
    lens: (u64, u64),
)
    requires
        is_written_table(writer, disk, encrypted, file, run),
        call_ensures(F::section_lens, (disk, encrypted), lens),
    ensures
        audits_clean(disk, mode, lens, listed_as(file), run),
{
    let (dir, block_size, sections, w) = choose|dir: &str, block_size: u32, sections: Sections, w: WrittenSst|
        #[trigger] stands_as_written(writer, disk, encrypted, file, run, dir, block_size, sections, w);
    a_written_table_audits_clean(writer, disk, dir, file.id, run, block_size, sections, w, mode, lens);
}

/// However an engine was called, the store that it leaves audits healthy in
/// every mode, without an error and without a warning, where the disk gives
/// back what was written and, for the logical checks, the keyspaces are sound.
pub proof fn a_store_that_was_left_audits_healthy<W: SstWriter, F: StoreFiles, D: StoreAudit + IndexCodec>(
    writer: &W,
    files: &F,
    origin: Origin,
    t0: Seq<Step>,
    t1: Seq<Step>,
    before: Engine,
    after: Engine,
    calls: Seq<Call>,
    disk: &D,
    prefixes: FtsPrefixes,
    supplied: SuppliedKey<'_>,
    mode: VerifyMode,
    store_id: u128,
    generation: u64,
    tables_rows: Seq<Seq<Row>>,
    r: Result<VerifyReport, EngineError>,
)
    requires
        durable(before, origin, t0),
        runs(files, t0, t1, before, after, calls),
        before.dir@ == data_dir(generation),
        sound_root(disk, store_id, generation),
        gives_back_all(
            writer,
            disk,
            supplied,
            store_id,
            generation,
            after.current.ssts@,
            tables_rows,
            log_after(origin.log, t1, origin.from, after.dir@),
            manifest_after(origin.ids, t1, origin.from, after.dir@),
        ),
        mode == VerifyMode::FullLogical ==> sound_logic(
            disk,
            prefixes,
            after.dir@,
            put_rows(layered(tables_rows), log_after(origin.log, t1, origin.from, after.dir@)),
        ),
        audits(disk, prefixes, supplied, mode, r),
    ensures
        r matches Ok(report) && report.healthy && report.errors@.len() == 0 && report.warnings@.len() == 0,
{
    any_calls_keep_the_store_durable(files, origin, t0, t1, before, after, calls);
    let dir = data_dir(generation);
    let ssts = after.current.ssts@;
    let log = log_after(origin.log, t1, origin.from, dir);
    assert(sound_dir(disk, prefixes, supplied, mode, store_id, dir, generation, tables_rows, log)) by {
        assert forall|l: Result<Vec<DirEntry>, EngineError>| #[trigger] gives_list(disk, dir, l) implies (l matches Ok(
            entries,
        ) && {
            &&& strays_in(dir, entries@).len() == 0
            &&& sound_key(disk, supplied, dir, generation, entries@)
            &&& sound_data(
                disk,
                prefixes,
                mode,
                Some(store_id),
                dir,
                entries@,
                supplied is Some,
                tables_rows,
                log,
            )
        }) by {
            let entries = l->Ok_0@;
            let tables = tables_in(dir, entries);
            assert(lists_left(disk, supplied, generation, ssts, entries));
            assert forall|lens: (u64, u64), i: int|
                #[trigger] call_ensures(D::section_lens, (disk, supplied is Some), lens) && 0 <= i
                    < tables.len() implies audits_clean(disk, mode, lens, #[trigger] tables[i], tables_rows[i]) by {
                assert(is_written_table(writer, disk, supplied is Some, *ssts[i], tables_rows[i]));
                assert(tables[i] == listed_as(*ssts[i]));
                lemma_left_table_is_clean(writer, disk, *ssts[i], tables_rows[i], mode, supplied is Some, lens);
            }
            assert forall|m: Result<SstManifest, ReadFault>| #[trigger]
                gives_manifest(disk, dir, m) implies (m matches Ok(manifest) && forall|i: int|
                0 <= i < manifest.live_sst_ids@.len() ==> is_on_disk(tables, #[trigger] manifest.live_sst_ids@[i])) by {
                let manifest = m->Ok_0;
                let live = manifest.live_sst_ids@;
                assert(live == ids_of(ssts));
                assert forall|i: int| 0 <= i < live.len() implies is_on_disk(tables, #[trigger] live[i]) by {
                    assert(tables[i] == listed_as(*ssts[i]));
                    assert(tables[i].id == live[i]);
                }
            }
        }
    }
    a_sound_store_audits_healthy(disk, prefixes, supplied, mode, store_id, generation, tables_rows, log, r);
}

} // verus!
