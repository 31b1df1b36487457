//! Which key an audit takes.
use super::audit::{
    audits, audits_active, audits_crypto, audits_data, audits_generation, audits_root, bound_generation, SuppliedKey,
};
use super::{holds_kind, strays_in, FileKind, Tally, VerifyMode, VerifyReport};
use crate::error::EngineError;
use crate::store::engine::key_laws::{a_rewrap_puts_the_new_key_on_record, key_after};
use crate::store::engine::rotate::rewraps;
use crate::store::engine::Engine;
use crate::store::files::{
    generation_dir_name, gives_crypto, gives_list, Argon2idProfile, DirEntry, KeyMode, KeyV, StoreAudit, StoreMeta,
};
use crate::store::trace::Step;
use crate::store::verify_logical::{FtsPrefixes, IndexCodec};
use vstd::prelude::*;

verus! {

/// Every key record opens with `key` alone, in its mode.
pub open spec fn only_takes<F: StoreAudit>(files: &F, key: KeyV) -> bool {
    forall|dir: Seq<char>, bytes: Seq<u8>, mode: KeyMode, generation: Option<u64>, r: Result<(), EngineError>|
        #[trigger] gives_crypto(files, dir, bytes, mode, generation, r) && r is Ok ==> bytes == key.bytes
            && mode == key.mode
}

/// The store is an encrypted one: its root holds the store's record and a key
/// record or a pointer, and its generations hold key records.
pub open spec fn is_sealed_store<F: StoreAudit>(files: &F) -> bool {
    forall|dir: Seq<char>, l: Result<Vec<DirEntry>, EngineError>|
        #[trigger] gives_list(files, dir, l) && l is Ok ==> {
            ||| holds_kind(l->Ok_0@, FileKind::CryptoMeta) && (dir.len() == 0 ==> holds_kind(
                l->Ok_0@,
                FileKind::StoreMeta,
            ))
            ||| dir.len() == 0 && holds_kind(l->Ok_0@, FileKind::StoreMeta) && holds_kind(
                l->Ok_0@,
                FileKind::GenerationMeta,
            )
        }
}

/// The key is `key`, supplied in its mode.
pub open spec fn is_supplied(supplied: SuppliedKey<'_>, key: KeyV) -> bool {
    supplied matches Some((bytes, mode)) && bytes@ == key.bytes && mode == key.mode
}

/// The call failed, or its report is not a healthy one.
pub open spec fn is_refused(r: Result<VerifyReport, EngineError>) -> bool {
    r matches Ok(report) ==> !report.healthy
}

proof fn lemma_crypto_refuses<F: StoreAudit + IndexCodec>(
    files: &F,
    prefixes: FtsPrefixes,
    supplied: SuppliedKey<'_>,
    mode: VerifyMode,
    store_id: Option<u128>,
    dir: Seq<char>,
    generation: u64,
    entries: Seq<DirEntry>,
    t: Tally,
    r: Result<VerifyReport, EngineError>,
    key: KeyV,
)
    requires
        only_takes(files, key),
        !is_supplied(supplied, key),
        generation != 0 || holds_kind(entries, FileKind::CryptoMeta),
        audits_crypto(files, prefixes, supplied, mode, store_id, dir, generation, entries, t, r),
    ensures
        is_refused(r),
{
}

proof fn lemma_active_refuses<F: StoreAudit + IndexCodec>(
    files: &F,
    prefixes: FtsPrefixes,
    supplied: SuppliedKey<'_>,
    mode: VerifyMode,
    store_id: Option<u128>,
    generation: u64,
    t: Tally,
    r: Result<VerifyReport, EngineError>,
    key: KeyV,
)
    requires
        only_takes(files, key),
        !is_supplied(supplied, key),
        audits_active(files, prefixes, supplied, mode, store_id, generation, t, r),
    ensures
        is_refused(r),
{
    let dir = generation_dir_name(generation);
    if !is_refused(r) {
        let entries = choose|entries: Seq<DirEntry>| #[trigger]
            audits_crypto(
                files,
                prefixes,
                supplied,
                mode,
                store_id,
                dir,
                generation,
                entries,
                t.with(Seq::empty(), strays_in(dir, entries)),
                r,
            );
        lemma_crypto_refuses(
            files,
            prefixes,
            supplied,
            mode,
            store_id,
            dir,
            generation,
            entries,
            t.with(Seq::empty(), strays_in(dir, entries)),
            r,
            key,
        );
    }
}

proof fn lemma_generation_refuses<F: StoreAudit + IndexCodec>(
    files: &F,
    prefixes: FtsPrefixes,
    supplied: SuppliedKey<'_>,
    mode: VerifyMode,
    store_id: Option<u128>,
    entries: Seq<DirEntry>,
    t: Tally,
    r: Result<VerifyReport, EngineError>,
    key: KeyV,
)
    requires
        only_takes(files, key),
        !is_supplied(supplied, key),
        holds_kind(entries, FileKind::CryptoMeta) || holds_kind(entries, FileKind::GenerationMeta),
        audits_generation(files, prefixes, supplied, mode, store_id, entries, t, r),
    ensures
        is_refused(r),
{
    if !holds_kind(entries, FileKind::GenerationMeta) {
        lemma_crypto_refuses(files, prefixes, supplied, mode, store_id, Seq::empty(), 0, entries, t, r, key);
    } else if !is_refused(r) {
        let generation = choose|generation: u64| #[trigger]
            audits_active(files, prefixes, supplied, mode, store_id, generation, t.with_file(), r);
        lemma_active_refuses(files, prefixes, supplied, mode, store_id, generation, t.with_file(), r, key);
    }
}

/// An audit of an encrypted store takes the key on record, in the mode that it
/// was put there, and no other: with any other, or with the same bytes in the
/// other mode, it fails or its report is not healthy.
pub proof fn an_audit_takes_the_key_on_record_alone<F: StoreAudit + IndexCodec>(
    files: &F,
    prefixes: FtsPrefixes,
    supplied: SuppliedKey<'_>,
    mode: VerifyMode,
    r: Result<VerifyReport, EngineError>,
    key: KeyV,
)
    requires
        is_sealed_store(files),
        only_takes(files, key),
        !is_supplied(supplied, key),
        audits(files, prefixes, supplied, mode, r),
    ensures
        is_refused(r),
{
    if !is_refused(r) {
        let l = choose|l: Result<Vec<DirEntry>, EngineError>|
            #[trigger] gives_list(files, Seq::empty(), l) && l is Ok && audits_root(
                files,
                prefixes,
                supplied,
                mode,
                l->Ok_0@,
                r,
            );
        let entries = l->Ok_0@;
        let (store_id, t) = choose|store_id: Option<u128>, t: Tally| #[trigger]
            audits_generation(files, prefixes, supplied, mode, store_id, entries, t, r);
        lemma_generation_refuses(files, prefixes, supplied, mode, store_id, entries, t, r, key);
    }
}

/// The key on record is taken: where its record opens with it, the audit goes
/// on to the data of the directory.
pub proof fn an_audit_goes_on_with_the_key_on_record<F: StoreAudit + IndexCodec>(
    files: &F,
    prefixes: FtsPrefixes,
    supplied: SuppliedKey<'_>,
    mode: VerifyMode,
    store_id: Option<u128>,
    dir: Seq<char>,
    generation: u64,
    entries: Seq<DirEntry>,
    t: Tally,
    r: Result<VerifyReport, EngineError>,
    key: KeyV,
)
    requires
        is_supplied(supplied, key),
        holds_kind(entries, FileKind::CryptoMeta),
        forall|l: Result<(), EngineError>| #[trigger]
            gives_crypto(files, dir, key.bytes, key.mode, bound_generation(generation), l) ==> l is Ok,
        audits_crypto(files, prefixes, supplied, mode, store_id, dir, generation, entries, t, r),
    ensures
        audits_data(files, prefixes, mode, store_id, dir, entries, true, t.with_file(), r),
{
}

/// After the data key was wrapped under a passphrase, an audit never takes the
/// same bytes for a raw key.
pub proof fn a_passphrase_is_never_taken_for_a_raw_key<F: StoreAudit + IndexCodec>(
    t0: Seq<Step>,
    t1: Seq<Step>,
    engine: Engine,
    passphrase: Seq<u8>,
    profile: Argon2idProfile,
    rotated: Result<(), EngineError>,
    files: &F,
    prefixes: FtsPrefixes,
    bytes: &[u8],
    mode: VerifyMode,
    r: Result<VerifyReport, EngineError>,
)
    requires
        rewraps(t0, t1, engine, passphrase, KeyMode::Passphrase, profile, rotated),
        rotated is Ok,
        is_sealed_store(files),
        key_after(None, t1, 0, engine.dir@) matches Some(key) ==> only_takes(files, key),
        bytes@ == passphrase,
        audits(files, prefixes, Some((bytes, KeyMode::RawKey)), mode, r),
    ensures
        is_refused(r),
{
    let key = KeyV { bytes: passphrase, mode: KeyMode::Passphrase, profile };
    a_rewrap_puts_the_new_key_on_record(
        t0,
        t1,
        engine,
        passphrase,
        KeyMode::Passphrase,
        profile,
        rotated,
        None,
        0,
        engine.dir@,
    );
    an_audit_takes_the_key_on_record_alone(files, prefixes, Some((bytes, KeyMode::RawKey)), mode, r, key);
}

} // verus!
