//! Opening a store: the lock, the format gate, the active generation, the key,
//! the tables against the manifest, and the log.
use crate::error::EngineError;
use crate::store::files;
use crate::store::files::{
    generation_dir_name, generation_of, gives_crypto, gives_list, has_sst_extension, tells_dir, tells_present,
    DirEntry, KeyMode, ReadFault, StoreDir, StoreMeta, StoreRoot, UserKey, STORE_FORMAT_VERSION,
};
use crate::store::sst_block;
use crate::store::sst_block::{capped64, joined};
use crate::store::trace::{made_key, wrote_store_meta, Step, Traced};
use crate::text;
use crate::text::ends_in;
use vstd::prelude::*;

verus! {

/// `id` has the version and the variant of a time-ordered identity: the bits
/// that tell version seven, and those that tell the variant.
pub open spec fn is_time_ordered(id: u128) -> bool {
    (id / 0x1000_0000_0000_0000_0000) % 16 == 7 && (id / 0x4000_0000_0000_0000) % 4 == 2
}

/// `Uuid::now_v7` of the `uuid` crate, as a number: a fresh identity made of
/// the time and of random bits, marked as version seven of the RFC variant.
/// Which one comes out is left unsaid: it rests on the clock and on chance.
/// The crate panics where the clock stands before 1970 or the system has no
/// random bits to give.
#[verifier::external_body]
fn fresh_store_id() -> (id: u128)
    ensures
        is_time_ordered(id),
{
    uuid::Uuid::now_v7().as_u128()
}

/// Some entry is named like a table.
pub open spec fn names_table(entries: Seq<DirEntry>) -> bool {
    exists|i: int| 0 <= i < entries.len() && has_sst_extension(#[trigger] entries[i].name@)
}

/// Whether some entry is named like a table.
pub fn sst_files_present(entries: &Vec<DirEntry>) -> (r: bool)
    ensures
        r == names_table(entries@),
{
    let mut i: usize = 0;
    while i < entries.len()
        invariant
            i <= entries@.len(),
            forall|k: int| 0 <= k < i ==> !has_sst_extension(#[trigger] entries@[k].name@),
        decreases entries@.len() - i,
    {
        if files::is_sst_name(entries[i].name.as_str()) {
            assert(has_sst_extension(entries@[i as int].name@));
            return true;
        }
        i = i + 1;
    }
    false
}

/// The length of all temporary files among entries.
pub open spec fn temporary_bytes(entries: Seq<DirEntry>) -> nat
    decreases entries.len(),
{
    if entries.len() == 0 {
        0
    } else if ends_in(entries.last().name@, ".tmp"@) {
        temporary_bytes(entries.drop_last()) + entries.last().len as nat
    } else {
        temporary_bytes(entries.drop_last())
    }
}

/// Sums the length of all temporary files: what crashes left behind.
pub fn scan_orphan_tmp_bytes(entries: &Vec<DirEntry>) -> (n: u64)
    ensures
        n == capped64(temporary_bytes(entries@)),
{
    let mut total: u64 = 0;
    let mut i: usize = 0;
    assert(entries@.subrange(0, 0) =~= Seq::<DirEntry>::empty());
    while i < entries.len()
        invariant
            i <= entries@.len(),
            total == capped64(temporary_bytes(entries@.subrange(0, i as int))),
        decreases entries@.len() - i,
    {
        proof {
            let more = entries@.subrange(0, i + 1);
            assert(more.drop_last() =~= entries@.subrange(0, i as int));
            assert(more.last() == entries@[i as int]);
        }
        if text::ends_with(entries[i].name.as_str(), ".tmp") {
            total = total.saturating_add(entries[i].len);
        }
        i = i + 1;
    }
    assert(entries@.subrange(0, i as int) =~= entries@);
    total
}

/// Some entry is named like a generation; with `dirs`, and is a directory.
pub open spec fn names_generation(entries: Seq<DirEntry>, dirs: bool) -> bool {
    exists|i: int|
        0 <= i < entries.len() && generation_of(#[trigger] entries[i].name@) is Some && (dirs ==> entries[i].is_dir)
}

/// Whether some entry is named like a generation.
pub fn any_generation_dir_present(entries: &Vec<DirEntry>, dirs: bool) -> (r: bool)
    ensures
        r == names_generation(entries@, dirs),
{
    let mut i: usize = 0;
    while i < entries.len()
        invariant
            i <= entries@.len(),
            forall|k: int|
                0 <= k < i ==> !(generation_of(#[trigger] entries@[k].name@) is Some && (dirs ==> entries@[k].is_dir)),
        decreases entries@.len() - i,
    {
        if files::generation_id(entries[i].name.as_str()).is_some() && (!dirs || entries[i].is_dir) {
            assert(generation_of(entries@[i as int].name@) is Some);
            return true;
        }
        i = i + 1;
    }
    false
}

/// `e` says that reading a metadata record at `path` failed.
pub open spec fn is_fault(e: EngineError, path: Seq<char>, fault: ReadFault) -> bool {
    match fault {
        ReadFault::Unreadable(why) => e matches EngineError::Io { path: p, reason } && p@ == path && reason@ == why@,
        ReadFault::Undecodable(inner) => e == inner,
    }
}

/// The error of a metadata record that could not be had.
pub(crate) fn fault_error(path: &str, fault: ReadFault) -> (e: EngineError)
    ensures
        is_fault(e, path@, fault),
{
    match fault {
        ReadFault::Unreadable(why) => EngineError::Io { path: String::from_str(path), reason: why },
        ReadFault::Undecodable(inner) => inner,
    }
}

/// `e` says that the store has another format; `found` is zero where no
/// version was ever recorded.
pub open spec fn is_format_error(e: EngineError, version: u32) -> bool {
    e matches EngineError::UnsupportedStoreFormat { path, expected, found } && path@.len() == 0 && expected
        == STORE_FORMAT_VERSION && found == version
}

fn format_error(version: u32) -> (e: EngineError)
    ensures
        is_format_error(e, version),
{
    let root: &str = "";
    proof {
        reveal_strlit("");
    }
    EngineError::UnsupportedStoreFormat {
        path: String::from_str(root),
        expected: STORE_FORMAT_VERSION,
        found: version,
    }
}

/// The record of a store with identity `id`.
pub open spec fn record_of(id: u128) -> StoreMeta {
    StoreMeta { store_format_version: STORE_FORMAT_VERSION, store_id: Some(id) }
}

/// What stamping the store with an identity gives.
pub open spec fn stamps(t0: Seq<Step>, t1: Seq<Step>, id: u128, r: Result<u128, EngineError>) -> bool {
    exists|w: Result<(), EngineError>|
        #[trigger] wrote_store_meta(t0, t1, record_of(id), w) && match w {
            Ok(()) => r == Ok::<u128, EngineError>(id),
            Err(e) => r == Err::<u128, EngineError>(e),
        }
}

/// What stamping the store with a fresh identity gives.
pub open spec fn stamps_fresh(t0: Seq<Step>, t1: Seq<Step>, r: Result<u128, EngineError>) -> bool {
    exists|id: u128| is_time_ordered(id) && #[trigger] stamps(t0, t1, id, r)
}

/// Records an identity of the store.
pub fn stamp_store<F: StoreRoot>(files: &mut Traced<F>, id: u128) -> (r: Result<u128, EngineError>)
    ensures
        final(files).spec_files() == old(files).spec_files(),
        stamps(old(files).steps(), final(files).steps(), id, r),
{
    let meta = StoreMeta { store_format_version: STORE_FORMAT_VERSION, store_id: Some(id) };
    let w = files.write_store_meta(&meta);
    assert(wrote_store_meta(old(files).steps(), files.steps(), record_of(id), w));
    match w {
        Ok(()) => Ok(id),
        Err(e) => Err(e),
    }
}

/// Parts of a store without its record: a log, a generation pointer, a
/// generation, or a table. A key record alone is none: it may be all that an
/// interrupted first open left.
pub open spec fn tells_artifacts<F: StoreRoot>(files: &F, entries: Seq<DirEntry>, r: bool) -> bool {
    exists|log: bool, pointer: bool|
        {
            &&& #[trigger] tells_present(files, "wal.log"@, log)
            &&& #[trigger] tells_present(files, "generation.meta"@, pointer)
            &&& r == (log || pointer || names_generation(entries, true) || names_table(entries))
        }
}

/// What the format gate gives: the identity of a store of this format, a fresh
/// one for a record without or for an empty directory, and a refusal for
/// anything else, which writes nothing.
pub open spec fn gates<F: StoreRoot>(
    files: &F,
    t0: Seq<Step>,
    t1: Seq<Step>,
    r: Result<u128, EngineError>,
) -> bool {
    exists|there: bool|
        #[trigger] tells_present(files, "store.meta"@, there) && if there {
            exists|m: Result<StoreMeta, ReadFault>|
                #[trigger] call_ensures(F::read_store_meta, (files,), m) && match m {
                    Err(fault) => t1 == t0 && (r matches Err(e) && is_fault(e, "store.meta"@, fault)),
                    Ok(meta) => if meta.store_format_version != STORE_FORMAT_VERSION {
                        t1 == t0 && (r matches Err(e) && is_format_error(e, meta.store_format_version))
                    } else {
                        match meta.store_id {
                            Some(id) => t1 == t0 && r == Ok::<u128, EngineError>(id),
                            None => stamps_fresh(t0, t1, r),
                        }
                    },
                }
        } else {
            exists|l: Result<Vec<DirEntry>, EngineError>|
                #[trigger] gives_list(files, Seq::empty(), l) && match l {
                    Err(e) => t1 == t0 && r == Err::<u128, EngineError>(e),
                    Ok(entries) => exists|old_parts: bool|
                        #[trigger] tells_artifacts(files, entries@, old_parts) && if old_parts {
                            t1 == t0 && (r matches Err(e) && is_format_error(e, 0))
                        } else {
                            stamps_fresh(t0, t1, r)
                        },
                }
        }
}

fn has_artifacts<F: StoreRoot>(files: &F, entries: &Vec<DirEntry>) -> (r: bool)
    ensures
        tells_artifacts(files, entries@, r),
{
    let log = is_present(files, "wal.log");
    let pointer = is_present(files, "generation.meta");
    assert(tells_present(files, "wal.log"@, log));
    assert(tells_present(files, "generation.meta"@, pointer));
    log || pointer || any_generation_dir_present(entries, true) || sst_files_present(entries)
}

fn is_present<F: StoreDir>(files: &F, path: &str) -> (r: bool)
    ensures
        tells_present(files, path@, r),
{
    let r = files.is_present(path);
    assert(call_ensures(F::is_present, (files, path), r));
    r
}

fn list_root<F: StoreDir>(files: &F) -> (l: Result<Vec<DirEntry>, EngineError>)
    ensures
        gives_list(files, Seq::empty(), l),
{
    let root: &str = "";
    proof {
        reveal_strlit("");
        assert(root@ =~= Seq::<char>::empty());
    }
    let l = files.list(root);
    assert(call_ensures(F::list, (files, root), l));
    l
}

/// The format gate, before anything else is looked at.
pub fn check_or_create_store_meta<F: StoreRoot>(files: &mut Traced<F>) -> (r: Result<u128, EngineError>)
    ensures
        final(files).spec_files() == old(files).spec_files(),
        gates(&old(files).spec_files(), old(files).steps(), final(files).steps(), r),
{
    let disk = files.files();
    let there = is_present(disk, "store.meta");
    assert(tells_present(disk, "store.meta"@, there));
    if there {
        let m = disk.read_store_meta();
        assert(call_ensures(F::read_store_meta, (disk,), m));
        match m {
            Err(fault) => Err(fault_error("store.meta", fault)),
            Ok(meta) => {
                if meta.store_format_version != STORE_FORMAT_VERSION {
                    return Err(format_error(meta.store_format_version));
                }
                match meta.store_id {
                    Some(id) => Ok(id),
                    None => stamp_store(files, fresh_store_id()),
                }
            },
        }
    } else {
        let l = list_root(disk);
        assert(gives_list(disk, Seq::empty(), l));
        match l {
            Err(e) => Err(e),
            Ok(entries) => {
                let old_parts = has_artifacts(disk, &entries);
                assert(tells_artifacts(disk, entries@, old_parts));
                if old_parts {
                    Err(format_error(0))
                } else {
                    stamp_store(files, fresh_store_id())
                }
            },
        }
    }
}

/// `e` says that the generation pointer is unusable.
pub open spec fn is_pointer_error(e: EngineError, why: Seq<char>) -> bool {
    e matches EngineError::CorruptGenerationMeta { path, reason } && path@ == "generation.meta"@ && reason@ == why
}

fn pointer_error(why: &str) -> (e: EngineError)
    ensures
        is_pointer_error(e, why@),
{
    EngineError::CorruptGenerationMeta { path: String::from_str("generation.meta"), reason: String::from_str(why) }
}

/// Why a store whose pointer is gone is refused.
pub open spec fn lost_pointer_text() -> Seq<char> {
    "generation pointer missing, a gen-N directory exists, and the root has no generation-0 artifacts of its own — refusing to treat this store as a fresh generation 0"@
}

/// Whether the root holds parts of the first generation may be answered `r`.
pub open spec fn tells_root_parts<F: StoreDir>(files: &F, r: Result<bool, EngineError>) -> bool {
    exists|log: bool, key: bool|
        {
            &&& #[trigger] tells_present(files, "wal.log"@, log)
            &&& #[trigger] tells_present(files, "crypto.meta"@, key)
            &&& if log || key {
                r == Ok::<bool, EngineError>(true)
            } else {
                exists|l: Result<Vec<DirEntry>, EngineError>|
                    #[trigger] gives_list(files, Seq::empty(), l) && match l {
                        Err(e) => r == Err::<bool, EngineError>(e),
                        Ok(entries) => r == Ok::<bool, EngineError>(names_table(entries@)),
                    }
            }
        }
}

/// Whether the root holds parts of the first generation: its log, its key
/// record, or a table.
pub fn root_generation_zero_artifacts_present<F: StoreDir>(files: &F) -> (r: Result<bool, EngineError>)
    ensures
        tells_root_parts(files, r),
{
    let log = is_present(files, "wal.log");
    let key = is_present(files, "crypto.meta");
    assert(tells_present(files, "wal.log"@, log));
    assert(tells_present(files, "crypto.meta"@, key));
    if log || key {
        return Ok(true);
    }
    let l = list_root(files);
    assert(gives_list(files, Seq::empty(), l));
    match l {
        Err(e) => Err(e),
        Ok(entries) => Ok(sst_files_present(&entries)),
    }
}

/// A data directory, and the generation that it holds.
#[derive(Debug)]
pub struct ActiveDir {
    pub dir: String,
    pub generation: u64,
}

/// The data directory is `dir` of `generation`.
pub open spec fn is_active(r: Result<ActiveDir, EngineError>, dir: Seq<char>, generation: u64) -> bool {
    r matches Ok(active) && active.dir@ == dir && active.generation == generation
}

/// What a store without a pointer is: the first generation at the root, unless
/// a generation is there and the root is bare, which only a lost pointer
/// leaves, and which is refused.
pub open spec fn resolves_root<F: StoreDir>(files: &F, r: Result<ActiveDir, EngineError>) -> bool {
    exists|l: Result<Vec<DirEntry>, EngineError>|
        #[trigger] gives_list(files, Seq::empty(), l) && if l matches Ok(entries) && names_generation(
            entries@,
            false,
        ) {
            exists|p: Result<bool, EngineError>|
                #[trigger] tells_root_parts(files, p) && match p {
                    Err(e) => r == Err::<ActiveDir, EngineError>(e),
                    Ok(true) => is_active(r, Seq::empty(), 0),
                    Ok(false) => r matches Err(e) && is_pointer_error(e, lost_pointer_text()),
                }
        } else {
            is_active(r, Seq::empty(), 0)
        }
}

/// What a pointer to `generation` resolves to.
pub open spec fn resolves_to<F: StoreDir>(files: &F, generation: u64, r: Result<ActiveDir, EngineError>) -> bool {
    let dir = generation_dir_name(generation);
    if generation == 0 {
        r matches Err(e) && is_pointer_error(e, "generation.meta must point to a non-zero gen-N directory"@)
    } else {
        exists|there: bool|
            #[trigger] tells_dir(files, dir, there) && if there {
                is_active(r, dir, generation)
            } else {
                r matches Err(e) && is_pointer_error(
                    e,
                    "active generation directory "@ + dir + " is missing"@,
                )
            }
    }
}

/// The only data directory that an opener may look at: once there is a
/// pointer, the one it names and no other.
pub open spec fn resolves<F: StoreDir>(files: &F, r: Result<ActiveDir, EngineError>) -> bool {
    exists|there: bool|
        #[trigger] tells_present(files, "generation.meta"@, there) && if !there {
            resolves_root(files, r)
        } else {
            exists|g: Result<u64, ReadFault>|
                #[trigger] call_ensures(F::read_generation, (files,), g) && match g {
                    Err(fault) => r matches Err(e) && is_fault(e, "generation.meta"@, fault),
                    Ok(generation) => resolves_to(files, generation, r),
                }
        }
}

fn root_is_active() -> (r: Result<ActiveDir, EngineError>)
    ensures
        is_active(r, Seq::empty(), 0),
{
    let root: &str = "";
    proof {
        reveal_strlit("");
        assert(root@ =~= Seq::<char>::empty());
    }
    Ok(ActiveDir { dir: String::from_str(root), generation: 0 })
}

fn resolve_root<F: StoreDir>(files: &F) -> (r: Result<ActiveDir, EngineError>)
    ensures
        resolves_root(files, r),
{
    let l = list_root(files);
    assert(gives_list(files, Seq::empty(), l));
    let generations = match &l {
        Ok(entries) => any_generation_dir_present(entries, false),
        Err(_) => false,
    };
    if !generations {
        return root_is_active();
    }
    let p = root_generation_zero_artifacts_present(files);
    assert(tells_root_parts(files, p));
    match p {
        Err(e) => Err(e),
        Ok(true) => root_is_active(),
        Ok(false) => Err(
            pointer_error(
                "generation pointer missing, a gen-N directory exists, and the root has no generation-0 artifacts of its own — refusing to treat this store as a fresh generation 0",
            ),
        ),
    }
}

fn resolve_pointer<F: StoreDir>(files: &F, generation: u64) -> (r: Result<ActiveDir, EngineError>)
    ensures
        resolves_to(files, generation, r),
{
    if generation == 0 {
        return Err(pointer_error("generation.meta must point to a non-zero gen-N directory"));
    }
    let dir = files::generation_dir(generation);
    let d: &str = dir.as_str();
    let there = files.is_dir(d);
    assert(call_ensures(F::is_dir, (files, d), there));
    assert(tells_dir(files, dir@, there));
    if there {
        Ok(ActiveDir { dir, generation })
    } else {
        let why = String::from_str("active generation directory ").concat(d).concat(" is missing");
        Err(pointer_error(why.as_str()))
    }
}

/// Finds the data directory.
pub fn resolve_active_generation<F: StoreDir>(files: &F) -> (r: Result<ActiveDir, EngineError>)
    ensures
        resolves(files, r),
{
    let there = is_present(files, "generation.meta");
    assert(tells_present(files, "generation.meta"@, there));
    if !there {
        return resolve_root(files);
    }
    let g = files.read_generation();
    assert(call_ensures(F::read_generation, (files,), g));
    match g {
        Err(fault) => Err(fault_error("generation.meta", fault)),
        Ok(generation) => resolve_pointer(files, generation),
    }
}

/// The generation that a key record is bound to: a raw key of the first
/// generation is bound to none.
pub open spec fn binds(mode: KeyMode, generation: u64) -> Option<u64> {
    if mode == KeyMode::RawKey && generation == 0 {
        None
    } else {
        Some(generation)
    }
}

fn bound(mode: KeyMode, generation: u64) -> (b: Option<u64>)
    ensures
        b == binds(mode, generation),
{
    if mode == KeyMode::RawKey && generation == 0 {
        None
    } else {
        Some(generation)
    }
}

/// What settling the key of an existing record gives.
pub open spec fn unlocks<F: StoreRoot>(
    files: &F,
    dir: Seq<char>,
    generation: u64,
    key: Option<&UserKey>,
    r: Result<bool, EngineError>,
) -> bool {
    match key {
        None => r matches Err(EngineError::MissingEncryptionKey { path }) && path@ == dir,
        Some(k) => exists|l: Result<(), EngineError>|
            #[trigger] gives_crypto(files, dir, k.bytes@, k.mode, binds(k.mode, generation), l) && match l {
                Ok(()) => r == Ok::<bool, EngineError>(true),
                Err(e) => r == Err::<bool, EngineError>(e),
            },
    }
}

/// What supplying a key for a directory without a key record gives: a fresh
/// data key, unless plaintext is there already, and then nothing is written.
pub open spec fn seals<F: StoreRoot>(
    files: &F,
    t0: Seq<Step>,
    t1: Seq<Step>,
    dir: Seq<char>,
    generation: u64,
    key: &UserKey,
    r: Result<bool, EngineError>,
) -> bool {
    exists|log: bool, l: Result<Vec<DirEntry>, EngineError>|
        {
            &&& #[trigger] tells_present(files, joined(dir, "wal.log"@), log)
            &&& #[trigger] gives_list(files, dir, l)
            &&& match l {
                Err(e) => t1 == t0 && r == Err::<bool, EngineError>(e),
                Ok(entries) => if log || names_table(entries@) {
                    t1 == t0 && (r matches Err(EngineError::PlaintextStoreKeySupplied { path }) && path@ == dir)
                } else {
                    exists|c: Result<(), EngineError>|
                        #[trigger] made_key(t0, t1, dir, key.says(), binds(key.mode, generation), c) && match c {
                            Ok(()) => r == Ok::<bool, EngineError>(true),
                            Err(e) => r == Err::<bool, EngineError>(e),
                        }
                },
            }
        }
}

/// What settling the key gives: whether the store is encrypted. The key record
/// alone tells the mode, and a published generation must have one. Only a
/// fresh key writes.
pub open spec fn settles_key<F: StoreRoot>(
    files: &F,
    t0: Seq<Step>,
    t1: Seq<Step>,
    dir: Seq<char>,
    generation: u64,
    key: Option<&UserKey>,
    r: Result<bool, EngineError>,
) -> bool {
    let path = joined(dir, "crypto.meta"@);
    exists|sealed: bool|
        #[trigger] tells_present(files, path, sealed) && if generation != 0 && !sealed {
            t1 == t0 && (r matches Err(EngineError::CorruptCryptoMeta { path: p, reason }) && p@ == path && reason@
                == "published generation is missing crypto.meta"@)
        } else if sealed {
            t1 == t0 && unlocks(files, dir, generation, key, r)
        } else {
            match key {
                Some(k) => seals(files, t0, t1, dir, generation, k, r),
                None => t1 == t0 && r == Ok::<bool, EngineError>(false),
            }
        }
}

fn unlock<F: StoreRoot>(files: &F, dir: &str, generation: u64, key: Option<&UserKey>) -> (r: Result<
    bool,
    EngineError,
>)
    ensures
        unlocks(files, dir@, generation, key, r),
{
    match key {
        None => Err(EngineError::MissingEncryptionKey { path: String::from_str(dir) }),
        Some(k) => {
            let b = bound(k.mode, generation);
            let bytes: &[u8] = k.bytes.as_slice();
            let l = files.load_crypto(dir, bytes, k.mode, b);
            assert(call_ensures(F::load_crypto, (files, dir, bytes, k.mode, b), l));
            assert(gives_crypto(files, dir@, k.bytes@, k.mode, binds(k.mode, generation), l));
            match l {
                Ok(()) => Ok(true),
                Err(e) => Err(e),
            }
        },
    }
}

fn seal<F: StoreRoot>(files: &mut Traced<F>, dir: &str, generation: u64, key: &UserKey) -> (r: Result<
    bool,
    EngineError,
>)
    ensures
        final(files).spec_files() == old(files).spec_files(),
        seals(&old(files).spec_files(), old(files).steps(), final(files).steps(), dir@, generation, key, r),
{
    let path = sst_block::join(dir, "wal.log");
    let disk = files.files();
    let log = is_present(disk, path.as_str());
    assert(tells_present(disk, joined(dir@, "wal.log"@), log));
    let l = disk.list(dir);
    assert(call_ensures(F::list, (disk, dir), l));
    assert(gives_list(disk, dir@, l));
    match l {
        Err(e) => Err(e),
        Ok(entries) => {
            if log || sst_files_present(&entries) {
                return Err(EngineError::PlaintextStoreKeySupplied { path: String::from_str(dir) });
            }
            let b = bound(key.mode, generation);
            let c = files.create_crypto(dir, key, b);
            assert(made_key(
                old(files).steps(),
                files.steps(),
                dir@,
                key.says(),
                binds(key.mode, generation),
                c,
            ));
            match c {
                Ok(()) => Ok(true),
                Err(e) => Err(e),
            }
        },
    }
}

/// Settles whether the store is encrypted, and with which key.
pub fn settle_key<F: StoreRoot>(files: &mut Traced<F>, dir: &str, generation: u64, key: Option<&UserKey>) -> (r:
    Result<bool, EngineError>)
    ensures
        final(files).spec_files() == old(files).spec_files(),
        settles_key(&old(files).spec_files(), old(files).steps(), final(files).steps(), dir@, generation, key, r),
{
    let path = sst_block::join(dir, "crypto.meta");
    let sealed = is_present(files.files(), path.as_str());
    assert(tells_present(&old(files).spec_files(), joined(dir@, "crypto.meta"@), sealed));
    if generation != 0 && !sealed {
        return Err(
            EngineError::CorruptCryptoMeta {
                path,
                reason: String::from_str("published generation is missing crypto.meta"),
            },
        );
    }
    if sealed {
        return unlock(files.files(), dir, generation, key);
    }
    match key {
        Some(k) => seal(files, dir, generation, k),
        None => Ok(false),
    }
}

} // verus!
