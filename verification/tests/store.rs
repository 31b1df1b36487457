//! The store on a disk held in memory.
//!
//! `Disk` plays the file system and the codecs: sections carry a checksum, and
//! under a key they are masked and the checksum takes in the key, the table
//! and the section, so that nothing sealed can be moved or altered unnoticed.
use basemyai_engine::error::EngineError;
use basemyai_engine::key::{graph_index, memory_index, vector_index, Key};
use basemyai_engine::store::batch::Batch;
use basemyai_engine::store::block_cache::BlockCache;
use basemyai_engine::store::engine::write::{WalOp, WalRecord};
use basemyai_engine::store::engine::{Engine, StoreFiles};
use basemyai_engine::store::files::{
    Argon2idProfile, DirEntry, KeyMode, ReadFault, SstManifest, StoreAudit, StoreDir, StoreMeta, StoreRoot, UserKey,
    WalScan, STORE_FORMAT_VERSION,
};
use basemyai_engine::store::options::EngineOptions;
use basemyai_engine::store::repair::rebuild::{rebuild_indexes, IndexBuilder};
use basemyai_engine::store::repair::{plan_repair, RepairAction};
use basemyai_engine::store::sst::{scan_existing as scan_whole, SstFile, TableFiles};
use basemyai_engine::store::sst_block::bloom::SstBloomFilter;
use basemyai_engine::store::sst_block::{
    scan_existing, sst_path, BlockSstFile, SstBlockIndexEntry, SstFooter, SstHeader, SstReader, SstWriter,
};
use basemyai_engine::store::stats::EngineStats;
use basemyai_engine::store::trace::{Permit, Traced};
use basemyai_engine::store::verify::audit::{verify_store, verify_store_with_passphrase};
use basemyai_engine::store::verify::{IssueKind, VerifyMode, VerifyReport};
use basemyai_engine::store::verify_logical::{
    FtsPrefixes, FtsStats, IndexCodec, MemoryRecord, TermCount, VecMapEntry, VectorIndexMeta, VectorNode,
};
use basemyai_engine::store::version::VersionEdit;
use std::cell::{Cell, RefCell};
use std::collections::{BTreeMap, BTreeSet};
use std::ops::Deref;
use std::rc::Rc;

type Rows = Vec<(Key, Option<Vec<u8>>)>;

const KEY: &[u8] = b"test user key";
const HEADER_LEN: usize = 32;
const FOOTER_LEN: usize = 36;

fn hash(parts: &[&[u8]]) -> u64 {
    let mut h: u64 = 0xcbf2_9ce4_8422_2325;
    for part in parts {
        for b in part.iter() {
            h = (h ^ u64::from(*b)).wrapping_mul(0x0000_0100_0000_01b3);
        }
        h = h.rotate_left(17) ^ part.len() as u64;
    }
    h
}

fn put_bytes(out: &mut Vec<u8>, bytes: &[u8]) {
    out.extend_from_slice(&(bytes.len() as u32).to_le_bytes());
    out.extend_from_slice(bytes);
}

struct Input<'a> {
    buf: &'a [u8],
}

impl<'a> Input<'a> {
    fn take(&mut self, n: usize) -> Option<&'a [u8]> {
        if self.buf.len() < n {
            return None;
        }
        let (head, rest) = self.buf.split_at(n);
        self.buf = rest;
        Some(head)
    }

    fn u8(&mut self) -> Option<u8> {
        Some(self.take(1)?[0])
    }

    fn u32(&mut self) -> Option<u32> {
        Some(u32::from_le_bytes(self.take(4)?.try_into().ok()?))
    }

    fn u64(&mut self) -> Option<u64> {
        Some(u64::from_le_bytes(self.take(8)?.try_into().ok()?))
    }

    fn bytes(&mut self) -> Option<Vec<u8>> {
        let n = self.u32()? as usize;
        Some(self.take(n)?.to_vec())
    }

    fn text(&mut self) -> Option<String> {
        String::from_utf8(self.bytes()?).ok()
    }

    fn done(&self) -> Option<()> {
        if self.buf.is_empty() {
            Some(())
        } else {
            None
        }
    }
}

fn put_rows(out: &mut Vec<u8>, rows: &[(Key, Option<Vec<u8>>)]) {
    out.extend_from_slice(&(rows.len() as u32).to_le_bytes());
    for (key, value) in rows {
        out.push(u8::from(value.is_some()));
        put_bytes(out, key.as_bytes());
        if let Some(v) = value {
            put_bytes(out, v);
        }
    }
}

fn take_rows(input: &mut Input<'_>) -> Option<Rows> {
    let n = input.u32()?;
    let mut rows = Vec::new();
    for _ in 0..n {
        let valued = input.u8()?;
        let key = Key::from(input.bytes()?);
        let value = if valued == 1 { Some(input.bytes()?) } else { None };
        rows.push((key, value));
    }
    Some(rows)
}

fn header_bytes(header: &SstHeader) -> Vec<u8> {
    let mut out = Vec::new();
    out.extend_from_slice(&header.sst_id.to_le_bytes());
    out.extend_from_slice(&header.block_size.to_le_bytes());
    out.extend_from_slice(&header.entry_count.to_le_bytes());
    out.extend_from_slice(&header.dim.to_le_bytes());
    let sum = hash(&[&out]);
    out.extend_from_slice(&sum.to_le_bytes());
    out
}

fn footer_bytes(footer: &SstFooter) -> Vec<u8> {
    let mut out = Vec::new();
    out.extend_from_slice(&footer.index_offset.to_le_bytes());
    out.extend_from_slice(&footer.index_len.to_le_bytes());
    out.extend_from_slice(&footer.bloom_offset.to_le_bytes());
    out.extend_from_slice(&footer.bloom_len.to_le_bytes());
    out.extend_from_slice(&footer.block_count.to_le_bytes());
    out
}

fn take_footer(payload: &[u8]) -> Option<SstFooter> {
    let mut input = Input { buf: payload };
    let footer = SstFooter {
        index_offset: input.u64()?,
        index_len: input.u32()?,
        bloom_offset: input.u64()?,
        bloom_len: input.u32()?,
        block_count: input.u32()?,
    };
    input.done()?;
    Some(footer)
}

fn index_bytes(index: &[SstBlockIndexEntry]) -> Vec<u8> {
    let mut out = Vec::new();
    out.extend_from_slice(&(index.len() as u32).to_le_bytes());
    for e in index {
        put_bytes(&mut out, &e.first_key);
        put_bytes(&mut out, &e.last_key);
        out.extend_from_slice(&e.offset.to_le_bytes());
        out.extend_from_slice(&e.len.to_le_bytes());
        out.extend_from_slice(&e.entry_count.to_le_bytes());
        out.extend_from_slice(&e.tombstone_count.to_le_bytes());
    }
    out
}

fn take_index(payload: &[u8]) -> Option<Vec<SstBlockIndexEntry>> {
    let mut input = Input { buf: payload };
    let n = input.u32()?;
    let mut index = Vec::new();
    for _ in 0..n {
        index.push(SstBlockIndexEntry {
            first_key: input.bytes()?,
            last_key: input.bytes()?,
            offset: input.u64()?,
            len: input.u32()?,
            entry_count: input.u32()?,
            tombstone_count: input.u32()?,
        });
    }
    input.done()?;
    Some(index)
}

/// Sections of a table, in the order of a file.
const DATA: u8 = 1;
const INDEX: u8 = 2;
const BLOOM: u8 = 3;
const FOOTER: u8 = 4;
const LOG: u8 = 5;
const WHOLE: u8 = 6;

fn mask(dek: u64, payload: &[u8]) -> Vec<u8> {
    payload
        .iter()
        .enumerate()
        .map(|(i, b)| b ^ (hash(&[&dek.to_le_bytes(), &(i as u64).to_le_bytes()]) as u8))
        .collect()
}

fn tag(dek: Option<u64>, table: u64, section: u8, no: u32, payload: &[u8]) -> [u8; 8] {
    match dek {
        Some(dek) => {
            hash(&[&dek.to_le_bytes(), &table.to_le_bytes(), &[section], &no.to_le_bytes(), payload]).to_le_bytes()
        }
        None => hash(&[payload]).to_le_bytes(),
    }
}

fn seal(dek: Option<u64>, table: u64, section: u8, no: u32, payload: &[u8]) -> Vec<u8> {
    let mut out = match dek {
        Some(dek) => mask(dek, payload),
        None => payload.to_vec(),
    };
    out.extend_from_slice(&tag(dek, table, section, no, payload));
    out
}

fn unseal(dek: Option<u64>, table: u64, section: u8, no: u32, bytes: &[u8]) -> Option<Vec<u8>> {
    if bytes.len() < 8 {
        return None;
    }
    let (body, sum) = bytes.split_at(bytes.len() - 8);
    let payload = match dek {
        Some(dek) => mask(dek, body),
        None => body.to_vec(),
    };
    if tag(dek, table, section, no, &payload) == sum {
        Some(payload)
    } else {
        None
    }
}

fn dir_of(path: &str) -> String {
    match path.rfind('/') {
        Some(i) => path[..i].to_string(),
        None => String::new(),
    }
}

fn at(dir: &str, name: &str) -> String {
    if dir.is_empty() {
        name.to_string()
    } else {
        format!("{dir}/{name}")
    }
}

#[derive(Default)]
struct State {
    files: RefCell<BTreeMap<String, Vec<u8>>>,
    dirs: RefCell<BTreeSet<String>>,
    /// The data keys that are unwrapped, by directory.
    keys: RefCell<BTreeMap<String, u64>>,
    gone: Cell<bool>,
    locked: Cell<bool>,
    fsyncs: Cell<u64>,
    deks: Cell<u64>,
    block_reads: Cell<u64>,
    /// Retired tables that could not be removed.
    unremoved: Cell<u64>,
    /// Files that refuse to be removed this many times.
    stubborn: RefCell<BTreeMap<String, u32>>,
    /// What is refused: a part of the name of an operation's target.
    refused: RefCell<Option<String>>,
    /// The changes that were asked for, in order.
    journal: RefCell<Vec<String>>,
}

/// A disk, shared by all who hold it.
#[derive(Clone)]
struct Disk {
    state: Rc<State>,
}

impl Deref for Disk {
    type Target = State;

    fn deref(&self) -> &State {
        &self.state
    }
}

/// The disk, with its changes told.
fn on(disk: &Disk) -> Traced<Disk> {
    Traced::new(disk.clone())
}

impl Disk {
    fn new() -> Disk {
        Disk { state: Rc::new(State::default()) }
    }

    /// The process ends: locks and unwrapped keys are gone.
    fn restart(&self) {
        self.locked.set(false);
        self.keys.borrow_mut().clear();
    }

    /// Notes a change that is asked for.
    fn note(&self, what: &str, target: &str) {
        self.journal.borrow_mut().push(format!("{what} {target}"));
    }

    /// The changes asked for since this was last called.
    fn noted(&self) -> Vec<String> {
        self.journal.take()
    }

    fn write(&self, path: &str, bytes: &[u8]) {
        self.files.borrow_mut().insert(path.to_string(), bytes.to_vec());
    }

    fn read(&self, path: &str) -> Option<Vec<u8>> {
        self.files.borrow().get(path).cloned()
    }

    fn has(&self, path: &str) -> bool {
        self.files.borrow().contains_key(path) || self.dirs.borrow().contains(path)
    }

    fn remove(&self, path: &str) {
        self.files.borrow_mut().remove(path);
    }

    fn flip(&self, path: &str, at: usize) {
        let mut bytes = self.read(path).expect("file");
        bytes[at] ^= 0xFF;
        self.write(path, &bytes);
    }

    fn log_len(&self, dir: &str) -> u64 {
        self.read(&at(dir, "wal.log")).map_or(0, |b| b.len() as u64)
    }

    fn dek(&self, dir: &str) -> Option<u64> {
        self.keys.borrow().get(dir).copied()
    }

    fn io(path: &str) -> EngineError {
        EngineError::Io { path: path.to_string(), reason: "no such file".to_string() }
    }

    fn refuses(&self, path: &str) -> Result<(), EngineError> {
        match &*self.refused.borrow() {
            Some(part) if path.contains(part.as_str()) => {
                Err(EngineError::Io { path: path.to_string(), reason: "refused".to_string() })
            }
            _ => Ok(()),
        }
    }

    fn span(&self, path: &str, offset: u64, len: u64) -> Result<Vec<u8>, EngineError> {
        let files = self.files.borrow();
        let bytes = files.get(path).ok_or_else(|| Disk::io(path))?;
        let (from, to) = (offset as usize, (offset + len) as usize);
        Ok(bytes.get(from..to).ok_or_else(|| Disk::io(path))?.to_vec())
    }

    fn sealed_fault(path: &str) -> EngineError {
        EngineError::CorruptEncryptedSstBlock {
            path: path.to_string(),
            reason: "section failed authentication".to_string(),
        }
    }

    fn append(&self, dir: &str, payload: &[u8]) -> Result<u64, EngineError> {
        let path = at(dir, "wal.log");
        self.refuses(&path)?;
        let sealed = seal(self.dek(dir), 0, LOG, 0, payload);
        let mut record = (sealed.len() as u32).to_le_bytes().to_vec();
        record.extend_from_slice(&sealed);
        let mut files = self.files.borrow_mut();
        files.entry(path).or_default().extend_from_slice(&record);
        self.fsyncs.set(self.fsyncs.get() + 1);
        Ok(record.len() as u64)
    }

    /// The operations of the log, and the length of its torn tail.
    fn scan(&self, dir: &str) -> Result<WalScan, EngineError> {
        let path = at(dir, "wal.log");
        let bytes = self.read(&path).unwrap_or_default();
        let corrupt = || EngineError::CorruptWal { path: path.clone(), reason: "bad record".to_string() };
        let mut input = Input { buf: &bytes };
        let mut records = Vec::new();
        loop {
            let left = input.buf.len() as u64;
            if left == 0 {
                return Ok(WalScan { records, torn_tail_bytes: 0 });
            }
            let Some(sealed) = input.bytes() else {
                return Ok(WalScan { records, torn_tail_bytes: left });
            };
            let payload = unseal(self.dek(dir), 0, LOG, 0, &sealed).ok_or_else(corrupt)?;
            let rows = take_rows(&mut Input { buf: &payload }).ok_or_else(corrupt)?;
            for (key, value) in rows {
                let op = if value.is_some() { WalOp::Put } else { WalOp::Delete };
                records.push(WalRecord { op, key: key.into_bytes(), value });
            }
        }
    }

    fn wrap(&self, dir: &str, key: &UserKey, generation: Option<u64>, dek: u64) {
        let mut out = vec![0x43, u8::from(key.mode == KeyMode::Passphrase)];
        out.extend_from_slice(&generation.unwrap_or(0).to_le_bytes());
        out.extend_from_slice(&hash(&[&key.bytes, b"check"]).to_le_bytes());
        out.extend_from_slice(&(dek ^ hash(&[&key.bytes, b"wrap"])).to_le_bytes());
        self.write(&at(dir, "crypto.meta"), &out);
        self.keys.borrow_mut().insert(dir.to_string(), dek);
    }

    fn fresh_dek(&self) -> u64 {
        self.deks.set(self.deks.get() + 1);
        hash(&[b"dek", &self.deks.get().to_le_bytes()])
    }
}

impl SstWriter for Disk {
    fn header(&self, header: &SstHeader) -> Vec<u8> {
        header_bytes(header)
    }

    fn data_block(&self, dir: &str, sst_id: u64, block_no: u32, block: &Rows) -> Result<Vec<u8>, EngineError> {
        let mut payload = Vec::new();
        put_rows(&mut payload, block);
        Ok(seal(self.dek(dir), sst_id, DATA, block_no, &payload))
    }

    fn block_index(&self, dir: &str, sst_id: u64, index: &Vec<SstBlockIndexEntry>) -> Result<Vec<u8>, EngineError> {
        Ok(seal(self.dek(dir), sst_id, INDEX, 0, &index_bytes(index)))
    }

    fn bloom_filter(&self, dir: &str, sst_id: u64, filter: &SstBloomFilter) -> Result<Vec<u8>, EngineError> {
        let mut payload = filter.num_bits.to_le_bytes().to_vec();
        payload.extend_from_slice(&filter.num_hashes.to_le_bytes());
        put_bytes(&mut payload, &filter.bits);
        Ok(seal(self.dek(dir), sst_id, BLOOM, 0, &payload))
    }

    fn footer(&self, dir: &str, sst_id: u64, footer: &SstFooter) -> Result<Vec<u8>, EngineError> {
        Ok(seal(self.dek(dir), sst_id, FOOTER, 0, &footer_bytes(footer)))
    }
}

impl SstReader for Disk {
    fn header(&self, path: &str, _sst_id: u64, len: u64) -> Result<SstHeader, EngineError> {
        let bytes = self.span(path, 0, len)?;
        let corrupt = || EngineError::CorruptSstHeader { path: path.to_string(), reason: "bad checksum".to_string() };
        let payload = unseal(None, 0, 0, 0, &bytes).ok_or_else(corrupt)?;
        let mut input = Input { buf: &payload };
        let parts = (input.u64(), input.u32(), input.u64(), input.u32());
        match parts {
            (Some(sst_id), Some(block_size), Some(entry_count), Some(dim)) => {
                Ok(SstHeader { sst_id, block_size, entry_count, dim })
            }
            _ => Err(corrupt()),
        }
    }

    fn footer(&self, path: &str, sst_id: u64, offset: u64, len: u64) -> Result<SstFooter, EngineError> {
        let bytes = self.span(path, offset, len)?;
        let dek = self.dek(&dir_of(path));
        match unseal(dek, sst_id, FOOTER, 0, &bytes).and_then(|p| take_footer(&p)) {
            Some(footer) => Ok(footer),
            None if dek.is_some() => Err(Disk::sealed_fault(path)),
            None => {
                Err(EngineError::CorruptSstFooter { path: path.to_string(), reason: "bad checksum".to_string() })
            }
        }
    }

    fn block_index(&self, path: &str, sst_id: u64, offset: u64, len: u32) -> Result<
        Vec<SstBlockIndexEntry>,
        EngineError,
    > {
        let bytes = self.span(path, offset, u64::from(len))?;
        let dek = self.dek(&dir_of(path));
        match unseal(dek, sst_id, INDEX, 0, &bytes).and_then(|p| take_index(&p)) {
            Some(index) => Ok(index),
            None if dek.is_some() => Err(Disk::sealed_fault(path)),
            None => {
                Err(EngineError::CorruptSstBlockIndex { path: path.to_string(), reason: "bad checksum".to_string() })
            }
        }
    }

    fn bloom_filter(&self, path: &str, sst_id: u64, offset: u64, len: u32) -> Result<SstBloomFilter, EngineError> {
        let bytes = self.span(path, offset, u64::from(len))?;
        let dek = self.dek(&dir_of(path));
        let decode = |p: Vec<u8>| {
            let mut input = Input { buf: &p };
            Some(SstBloomFilter { num_bits: input.u64()?, num_hashes: input.u32()?, bits: input.bytes()? })
        };
        match unseal(dek, sst_id, BLOOM, 0, &bytes).and_then(decode) {
            Some(filter) => Ok(filter),
            None if dek.is_some() => Err(Disk::sealed_fault(path)),
            None => {
                Err(EngineError::CorruptSstBloomFilter { path: path.to_string(), reason: "bad checksum".to_string() })
            }
        }
    }

    fn data_block(&self, path: &str, sst_id: u64, block_no: u32, offset: u64, len: u32) -> Result<Rows, EngineError> {
        self.block_reads.set(self.block_reads.get() + 1);
        let bytes = self.span(path, offset, u64::from(len))?;
        let dek = self.dek(&dir_of(path));
        match unseal(dek, sst_id, DATA, block_no, &bytes).and_then(|p| take_rows(&mut Input { buf: &p })) {
            Some(rows) => Ok(rows),
            None if dek.is_some() => Err(Disk::sealed_fault(path)),
            None => {
                Err(EngineError::CorruptSstDataBlock { path: path.to_string(), reason: "bad checksum".to_string() })
            }
        }
    }
}

impl StoreFiles for Disk {
    fn write_file(&self, _permit: &Permit, path: &str, bytes: &Vec<u8>) -> Result<(), EngineError> {
        self.note("write", path);
        self.refuses(path)?;
        self.write(path, bytes);
        Ok(())
    }

    fn publish_manifest(&self, _permit: &Permit, dir: &str, generation: u64, live: &Vec<u64>) -> Result<(), EngineError> {
        self.note("manifest", dir);
        let path = at(dir, "manifest.meta");
        self.refuses(&path)?;
        let mut out = generation.to_le_bytes().to_vec();
        for id in live {
            out.extend_from_slice(&id.to_le_bytes());
        }
        self.write(&path, &out);
        Ok(())
    }

    fn append_put(&self, _permit: &Permit, dir: &str, key: &[u8], value: &[u8]) -> Result<u64, EngineError> {
        self.note("append", dir);
        let mut payload = Vec::new();
        put_rows(&mut payload, &[(Key::from(key), Some(value.to_vec()))]);
        self.append(dir, &payload)
    }

    fn append_delete(&self, _permit: &Permit, dir: &str, key: &[u8]) -> Result<u64, EngineError> {
        self.note("append", dir);
        let mut payload = Vec::new();
        put_rows(&mut payload, &[(Key::from(key), None)]);
        self.append(dir, &payload)
    }

    fn append_batch(&self, _permit: &Permit, dir: &str, ops: &Rows) -> Result<u64, EngineError> {
        self.note("append", dir);
        let mut payload = Vec::new();
        put_rows(&mut payload, ops);
        self.append(dir, &payload)
    }

    fn reset_log(&self, _permit: &Permit, dir: &str) -> Result<(), EngineError> {
        self.note("reset", dir);
        self.write(&at(dir, "wal.log"), b"");
        self.fsyncs.set(self.fsyncs.get() + 1);
        Ok(())
    }

    fn retire(&self, permit: &Permit, path: &str) {
        self.note("retire", path);
        if !self.remove_file(permit, path) {
            self.unremoved.set(self.unremoved.get() + 1);
        }
    }
}

impl StoreDir for Disk {
    fn is_dir(&self, path: &str) -> bool {
        if path.is_empty() {
            !self.gone.get()
        } else {
            self.dirs.borrow().contains(path)
        }
    }

    fn is_file(&self, path: &str) -> bool {
        self.files.borrow().contains_key(path)
    }

    fn is_present(&self, path: &str) -> bool {
        self.has(path)
    }

    fn list(&self, dir: &str) -> Result<Vec<DirEntry>, EngineError> {
        if !self.is_dir(dir) {
            return Err(Disk::io(dir));
        }
        let mut out = Vec::new();
        for (path, bytes) in self.files.borrow().iter() {
            if dir_of(path) == dir {
                let name = path.rsplit('/').next().unwrap_or(path).to_string();
                out.push(DirEntry { name, is_dir: false, len: bytes.len() as u64 });
            }
        }
        for path in self.dirs.borrow().iter() {
            if dir_of(path) == dir {
                out.push(DirEntry { name: path.clone(), is_dir: true, len: 0 });
            }
        }
        out.reverse();
        Ok(out)
    }

    fn list_readable(&self, dir: &str) -> Result<Vec<DirEntry>, EngineError> {
        self.list(dir)
    }

    fn read_store_meta(&self) -> Result<StoreMeta, ReadFault> {
        let bytes = self.read("store.meta").ok_or_else(|| ReadFault::Unreadable("no such file".to_string()))?;
        let mut input = Input { buf: &bytes };
        let corrupt = || {
            ReadFault::Undecodable(EngineError::CorruptStoreMeta {
                path: "store.meta".to_string(),
                reason: "short".to_string(),
            })
        };
        let store_format_version = input.u32().ok_or_else(corrupt)?;
        let store_id = match input.take(16) {
            Some(raw) => Some(u128::from_le_bytes(raw.try_into().expect("16 bytes"))),
            None => None,
        };
        Ok(StoreMeta { store_format_version, store_id })
    }

    fn read_generation(&self) -> Result<u64, ReadFault> {
        let bytes = self.read("generation.meta").ok_or_else(|| ReadFault::Unreadable("no such file".to_string()))?;
        match unseal(None, 0, 0, 0, &bytes).and_then(|p| Input { buf: &p }.u64()) {
            Some(generation) => Ok(generation),
            None => Err(ReadFault::Undecodable(EngineError::CorruptGenerationMeta {
                path: "generation.meta".to_string(),
                reason: "bad checksum".to_string(),
            })),
        }
    }

    fn read_manifest(&self, dir: &str) -> Result<SstManifest, ReadFault> {
        let path = at(dir, "manifest.meta");
        let bytes = self.read(&path).ok_or_else(|| ReadFault::Unreadable("no such file".to_string()))?;
        let mut input = Input { buf: &bytes };
        let corrupt = || {
            ReadFault::Undecodable(EngineError::CorruptSstManifest { path: path.clone(), reason: "short".to_string() })
        };
        let manifest_generation = input.u64().ok_or_else(corrupt)?;
        let mut live_sst_ids = Vec::new();
        while !input.buf.is_empty() {
            live_sst_ids.push(input.u64().ok_or_else(corrupt)?);
        }
        Ok(SstManifest { manifest_generation, live_sst_ids })
    }

    fn load_crypto(&self, dir: &str, key: &[u8], mode: KeyMode, generation: Option<u64>) -> Result<(), EngineError> {
        let path = at(dir, "crypto.meta");
        let bytes = self.read(&path).ok_or_else(|| Disk::io(&path))?;
        let corrupt = |reason: &str| EngineError::CorruptCryptoMeta { path: path.clone(), reason: reason.to_string() };
        if bytes.len() != 26 || bytes[0] != 0x43 {
            return Err(corrupt("does not decode"));
        }
        let mut input = Input { buf: &bytes[2..] };
        let stored = (input.u64(), input.u64(), input.u64());
        let (Some(bound), Some(check), Some(wrapped)) = stored else {
            return Err(corrupt("short"));
        };
        if let Some(generation) = generation {
            if bound != generation {
                return Err(corrupt("bound to another generation"));
            }
        }
        if bytes[1] != u8::from(mode == KeyMode::Passphrase) || check != hash(&[key, b"check"]) {
            return Err(EngineError::WrongEncryptionKey { path });
        }
        self.keys.borrow_mut().insert(dir.to_string(), wrapped ^ hash(&[key, b"wrap"]));
        Ok(())
    }

    fn section_lens(&self, _encrypted: bool) -> (u64, u64) {
        (HEADER_LEN as u64, FOOTER_LEN as u64)
    }
}

impl StoreRoot for Disk {
    fn create_root(&self, _permit: &Permit) -> Result<(), EngineError> {
        self.gone.set(false);
        Ok(())
    }

    fn lock_exclusive(&self, _permit: &Permit) -> Result<bool, EngineError> {
        self.write(".basemyai.lock", b"");
        if self.locked.get() {
            return Ok(false);
        }
        self.locked.set(true);
        Ok(true)
    }

    fn write_store_meta(&self, _permit: &Permit, meta: &StoreMeta) -> Result<(), EngineError> {
        self.note("stamp", "");
        let mut out = meta.store_format_version.to_le_bytes().to_vec();
        if let Some(id) = meta.store_id {
            out.extend_from_slice(&id.to_le_bytes());
        }
        self.write("store.meta", &out);
        Ok(())
    }

    fn create_crypto(&self, _permit: &Permit, dir: &str, key: &UserKey, generation: Option<u64>) -> Result<(), EngineError> {
        self.note("seal", dir);
        self.refuses(&at(dir, "crypto.meta"))?;
        let dek = self.fresh_dek();
        self.wrap(dir, key, generation, dek);
        Ok(())
    }

    fn rewrap_crypto(&self, _permit: &Permit, dir: &str, key: &UserKey, generation: u64) -> Result<(), EngineError> {
        self.note("rewrap", dir);
        self.refuses(&at(dir, "crypto.meta"))?;
        let dek = self.dek(dir).expect("an encrypted store has its key at hand");
        self.wrap(dir, key, Some(generation), dek);
        Ok(())
    }

    fn open_log(&self, _permit: &Permit, dir: &str) -> Result<u64, EngineError> {
        let path = at(dir, "wal.log");
        let mut files = self.files.borrow_mut();
        files.entry(at(dir, "wal_epoch.meta")).or_insert_with(|| 0u64.to_le_bytes().to_vec());
        Ok(files.entry(path).or_default().len() as u64)
    }

    fn replay_log(&self, _permit: &Permit, dir: &str) -> Result<Vec<WalRecord>, EngineError> {
        let scan = self.scan(dir)?;
        let path = at(dir, "wal.log");
        let keep = self.log_len(dir) - scan.torn_tail_bytes;
        if let Some(bytes) = self.files.borrow_mut().get_mut(&path) {
            bytes.truncate(keep as usize);
        }
        Ok(scan.records)
    }

    fn remove_file(&self, _permit: &Permit, path: &str) -> bool {
        self.note("remove", path);
        if let Some(times) = self.stubborn.borrow_mut().get_mut(path) {
            if *times > 0 {
                *times -= 1;
                return false;
            }
        }
        self.files.borrow_mut().remove(path).is_some()
    }

    fn remove_dir(&self, _permit: &Permit, path: &str) -> Result<(), EngineError> {
        self.note("remove", path);
        if !self.dirs.borrow_mut().remove(path) {
            return Err(Disk::io(path));
        }
        self.files.borrow_mut().retain(|p, _| dir_of(p) != path);
        Ok(())
    }

    fn create_dir(&self, _permit: &Permit, path: &str) -> Result<(), EngineError> {
        self.note("make", path);
        self.dirs.borrow_mut().insert(path.to_string());
        Ok(())
    }

    fn pause(&self) {}

    fn publish_generation(&self, _permit: &Permit, generation: u64) -> Result<(), EngineError> {
        self.note("point", &generation.to_string());
        self.refuses("generation.meta")?;
        self.write("generation.meta", &generation_pointer(generation));
        Ok(())
    }
}

fn generation_pointer(generation: u64) -> Vec<u8> {
    seal(None, 0, 0, 0, &generation.to_le_bytes())
}

impl StoreAudit for Disk {
    fn lock_shared(&self) -> Result<bool, EngineError> {
        Ok(!self.locked.get())
    }

    fn log_record_version(&self) -> u32 {
        2
    }

    fn log_epoch(&self, dir: &str) -> Result<Option<u64>, EngineError> {
        Ok(self.read(&at(dir, "wal_epoch.meta")).and_then(|bytes| Input { buf: &bytes }.u64()))
    }

    fn scan_log(&self, dir: &str, _store_id: u128, _epoch: u64) -> Result<WalScan, EngineError> {
        self.scan(dir)
    }

    fn open_table(&self, path: &str) -> Result<(), String> {
        if self.has(path) {
            Ok(())
        } else {
            Err("no such file".to_string())
        }
    }
}

impl TableFiles for Disk {
    fn write_table(&self, _permit: &Permit, path: &str, entries: &Rows) -> Result<(), EngineError> {
        let mut payload = Vec::new();
        put_rows(&mut payload, entries);
        self.write(path, &seal(self.dek(&dir_of(path)), 0, WHOLE, 0, &payload));
        Ok(())
    }

    fn read_table(&self, path: &str) -> Result<Rows, EngineError> {
        let bytes = self.read(path).ok_or_else(|| Disk::io(path))?;
        match unseal(self.dek(&dir_of(path)), 0, WHOLE, 0, &bytes).and_then(|p| take_rows(&mut Input { buf: &p })) {
            Some(rows) => Ok(rows),
            None => Err(EngineError::CorruptSst { path: path.to_string(), reason: "bad checksum".to_string() }),
        }
    }
}

/// A value of a reserved keyspace: what it is, and its checksum.
fn boxed(what: u8, payload: &[u8]) -> Vec<u8> {
    let mut out = vec![what];
    out.extend_from_slice(payload);
    let sum = hash(&[&out]);
    out.extend_from_slice(&sum.to_le_bytes());
    out
}

fn unboxed(what: u8, value: &[u8]) -> Result<Vec<u8>, EngineError> {
    match unseal(None, 0, 0, 0, value) {
        Some(payload) if payload.first() == Some(&what) => Ok(payload[1..].to_vec()),
        _ => Err(EngineError::CorruptMemoryRecord { reason: "value does not decode".to_string() }),
    }
}

fn short() -> EngineError {
    EngineError::CorruptMemoryRecord { reason: "value is short".to_string() }
}

fn encode_record(vec_id: u64, content: &str) -> Vec<u8> {
    let mut p = vec_id.to_le_bytes().to_vec();
    put_bytes(&mut p, content.as_bytes());
    boxed(1, &p)
}

fn encode_vector_meta(meta: VectorIndexMeta) -> Vec<u8> {
    let mut p = (meta.dim as u64).to_le_bytes().to_vec();
    p.extend_from_slice(&meta.count.to_le_bytes());
    p.push(u8::from(meta.entry_point.is_some()));
    p.extend_from_slice(&meta.entry_point.unwrap_or(0).to_le_bytes());
    boxed(4, &p)
}

fn encode_node(node: &VectorNode) -> Vec<u8> {
    let mut p = (node.dim as u64).to_le_bytes().to_vec();
    p.push(u8::from(node.deleted));
    p.extend_from_slice(&(node.neighbors.len() as u32).to_le_bytes());
    for n in &node.neighbors {
        p.extend_from_slice(&n.to_le_bytes());
    }
    boxed(5, &p)
}

fn encode_posting(tf: u32) -> Vec<u8> {
    boxed(6, &tf.to_le_bytes())
}

fn encode_docterms(terms: &[(String, u32)]) -> Vec<u8> {
    let mut p = (terms.len() as u32).to_le_bytes().to_vec();
    for (term, tf) in terms {
        put_bytes(&mut p, term.as_bytes());
        p.extend_from_slice(&tf.to_le_bytes());
    }
    boxed(7, &p)
}

fn encode_stats(stats: FtsStats) -> Vec<u8> {
    let mut p = stats.doc_count.to_le_bytes().to_vec();
    p.extend_from_slice(&stats.total_terms.to_le_bytes());
    boxed(8, &p)
}

impl IndexCodec for Disk {
    fn memory_meta(&self, value: &Vec<u8>) -> Result<u64, EngineError> {
        Input { buf: &unboxed(2, value)? }.u64().ok_or_else(short)
    }

    fn record(&self, value: &Vec<u8>) -> Result<MemoryRecord, EngineError> {
        let p = unboxed(1, value)?;
        let mut input = Input { buf: &p };
        Ok(MemoryRecord { vec_id: input.u64().ok_or_else(short)?, content: input.text().ok_or_else(short)? })
    }

    fn vecmap(&self, value: &Vec<u8>) -> Result<VecMapEntry, EngineError> {
        let p = unboxed(3, value)?;
        let mut input = Input { buf: &p };
        Ok(VecMapEntry { agent: input.text().ok_or_else(short)?, id: input.text().ok_or_else(short)? })
    }

    fn vector_meta(&self, value: &Vec<u8>) -> Result<VectorIndexMeta, EngineError> {
        let p = unboxed(4, value)?;
        let mut input = Input { buf: &p };
        let dim = input.u64().ok_or_else(short)? as usize;
        let count = input.u64().ok_or_else(short)?;
        let some = input.u8().ok_or_else(short)? == 1;
        let entry = input.u64().ok_or_else(short)?;
        Ok(VectorIndexMeta { dim, count, entry_point: if some { Some(entry) } else { None } })
    }

    fn node(&self, value: &Vec<u8>) -> Result<VectorNode, EngineError> {
        let p = unboxed(5, value)?;
        let mut input = Input { buf: &p };
        let dim = input.u64().ok_or_else(short)? as usize;
        let deleted = input.u8().ok_or_else(short)? == 1;
        let n = input.u32().ok_or_else(short)?;
        let mut neighbors = Vec::new();
        for _ in 0..n {
            neighbors.push(input.u64().ok_or_else(short)?);
        }
        Ok(VectorNode { dim, neighbors, deleted })
    }

    fn posting(&self, value: &Vec<u8>) -> Result<u32, EngineError> {
        Input { buf: &unboxed(6, value)? }.u32().ok_or_else(short)
    }

    fn docterms(&self, value: &Vec<u8>) -> Result<Vec<TermCount>, EngineError> {
        let p = unboxed(7, value)?;
        let mut input = Input { buf: &p };
        let n = input.u32().ok_or_else(short)?;
        let mut terms = Vec::new();
        for _ in 0..n {
            let term = input.text().ok_or_else(short)?;
            terms.push(TermCount { term, tf: input.u32().ok_or_else(short)? });
        }
        Ok(terms)
    }

    fn fts_stats(&self, value: &Vec<u8>) -> Result<FtsStats, EngineError> {
        let p = unboxed(8, value)?;
        let mut input = Input { buf: &p };
        Ok(FtsStats { doc_count: input.u64().ok_or_else(short)?, total_terms: input.u64().ok_or_else(short)? })
    }

    fn entity(&self, value: &Vec<u8>) -> Result<(), EngineError> {
        unboxed(9, value).map(|_| ())
    }

    fn edge(&self, value: &Vec<u8>) -> Result<(), EngineError> {
        unboxed(10, value).map(|_| ())
    }
}

fn fts_prefixes() -> FtsPrefixes {
    FtsPrefixes {
        index: b"idx/fts/".to_vec(),
        postings: b"idx/fts/post/".to_vec(),
        docterms: b"idx/fts/doc/".to_vec(),
        stats: b"idx/fts/meta/".to_vec(),
    }
}

fn field(out: &mut Vec<u8>, text: &str) {
    out.extend_from_slice(&(text.len() as u32).to_be_bytes());
    out.extend_from_slice(text.as_bytes());
}

fn docterms_key(agent: &str, vec_id: u64) -> Vec<u8> {
    let mut key = fts_prefixes().docterms;
    field(&mut key, agent);
    key.extend_from_slice(&vec_id.to_be_bytes());
    key
}

fn postings_key(agent: &str, term: &str, vec_id: u64) -> Vec<u8> {
    let mut key = fts_prefixes().postings;
    field(&mut key, agent);
    field(&mut key, term);
    key.extend_from_slice(&vec_id.to_be_bytes());
    key
}

fn fts_meta_key(agent: &str) -> Vec<u8> {
    let mut key = fts_prefixes().stats;
    field(&mut key, agent);
    key
}

fn terms_of(content: &str) -> Vec<(String, u32)> {
    let mut counts: BTreeMap<String, u32> = BTreeMap::new();
    for word in content.split_whitespace() {
        *counts.entry(word.to_lowercase()).or_default() += 1;
    }
    counts.into_iter().collect()
}

/// What the engine holds for `key`, without touching its cache.
fn peek(disk: &Disk, engine: &Engine, key: &[u8]) -> Option<Vec<u8>> {
    let found = engine.scan_prefix(disk, key).expect("scan");
    found.into_iter().find(|(k, _)| k.as_bytes() == key).map(|(_, v)| v)
}

fn stats_of(disk: &Disk, engine: &Engine, agent: &str) -> FtsStats {
    match peek(disk, engine, &fts_meta_key(agent)) {
        Some(value) => disk.fts_stats(&value).expect("stats"),
        None => FtsStats { doc_count: 0, total_terms: 0 },
    }
}

fn stage_text(disk: &Disk, engine: &Engine, agent: &str, vec_id: u64, content: &str) -> Batch {
    let mut batch = Batch::new();
    let terms = terms_of(content);
    let old = stats_of(disk, engine, agent);
    let total: u64 = terms.iter().map(|(_, tf)| u64::from(*tf)).sum();
    for (term, tf) in &terms {
        batch.put(&postings_key(agent, term, vec_id), &encode_posting(*tf));
    }
    batch.put(&docterms_key(agent, vec_id), &encode_docterms(&terms));
    let stats = FtsStats { doc_count: old.doc_count + 1, total_terms: old.total_terms + total };
    batch.put(&fts_meta_key(agent), &encode_stats(stats));
    batch
}

fn vector_nodes(disk: &Disk, engine: &Engine) -> Vec<(u64, VectorNode)> {
    let found = engine.scan_prefix(disk, &vector_index::NODE_PREFIX).expect("scan nodes");
    found
        .into_iter()
        .map(|(k, v)| (vector_index::node_id(k.as_bytes()).expect("node id"), disk.node(&v).expect("node")))
        .collect()
}

/// The metadata of the nodes, with one of them changed or added.
fn stage_node(disk: &Disk, engine: &Engine, id: u64, node: VectorNode) -> Batch {
    let mut nodes = vector_nodes(disk, engine);
    nodes.retain(|(n, _)| *n != id);
    let mut batch = Batch::new();
    batch.put(vector_index::node_key(id).as_bytes(), &encode_node(&node));
    let dim = node.dim;
    nodes.push((id, node));
    nodes.sort_by_key(|(n, _)| *n);
    let live: Vec<u64> = nodes.iter().filter(|(_, n)| !n.deleted).map(|(n, _)| *n).collect();
    let meta = VectorIndexMeta { dim, count: live.len() as u64, entry_point: live.first().copied() };
    batch.put(&vector_index::META_KEY, &encode_vector_meta(meta));
    batch
}

impl IndexBuilder for Disk {
    fn encode_vecmap(&self, agent: &str, id: &str) -> Result<Vec<u8>, EngineError> {
        let mut p = Vec::new();
        put_bytes(&mut p, agent.as_bytes());
        put_bytes(&mut p, id.as_bytes());
        Ok(boxed(3, &p))
    }

    fn encode_memory_meta(&self, next_vec_id: u64) -> Result<Vec<u8>, EngineError> {
        Ok(boxed(2, &next_vec_id.to_le_bytes()))
    }

    fn stage_document(&self, engine: &Engine, agent: &str, vec_id: u64, content: &str) -> Result<Batch, EngineError> {
        Ok(stage_text(self, engine, agent, vec_id, content))
    }

    fn stage_vectors(&self, engine: &Engine, dim: usize) -> Result<Batch, EngineError> {
        let mut batch = Batch::new();
        let nodes = vector_nodes(self, engine);
        let live: Vec<u64> = nodes.iter().filter(|(_, n)| !n.deleted).map(|(n, _)| *n).collect();
        let meta = VectorIndexMeta { dim, count: live.len() as u64, entry_point: live.first().copied() };
        batch.put(&vector_index::META_KEY, &encode_vector_meta(meta));
        Ok(batch)
    }
}

/// The allocator's next id.
fn next_vec_id(disk: &Disk, engine: &Engine) -> u64 {
    match peek(disk, engine, &memory_index::META_KEY) {
        Some(value) => disk.memory_meta(&value).expect("memory meta"),
        None => 0,
    }
}

/// Remembers one memory: its record, its mapping, its vector and its text.
fn remember(disk: &Disk, engine: &mut Engine, agent: &str, id: &str, content: &str, dim: usize) -> u64 {
    let vec_id = next_vec_id(disk, engine);
    let neighbors: Vec<u64> = vector_nodes(disk, engine).iter().map(|(n, _)| *n).take(2).collect();
    let mut batch = Batch::new();
    let key = memory_index::record_key(agent, id).expect("record key");
    batch.put(key.as_bytes(), &encode_record(vec_id, content));
    let entry = disk.encode_vecmap(agent, id).expect("encode");
    batch.put(memory_index::vecmap_key(vec_id).as_bytes(), &entry);
    batch.put(&memory_index::META_KEY, &disk.encode_memory_meta(vec_id + 1).expect("encode"));
    batch.extend_from(&stage_text(disk, engine, agent, vec_id, content));
    batch.extend_from(&stage_node(disk, engine, vec_id, VectorNode { dim, neighbors, deleted: false }));
    engine.apply_batch(&mut on(disk), &batch).expect("remember");
    vec_id
}

/// Forgets one memory; its vector stays as a tombstone.
fn forget(disk: &Disk, engine: &mut Engine, agent: &str, id: &str) {
    let key = memory_index::record_key(agent, id).expect("record key");
    let rec = disk.record(&peek(disk, engine, key.as_bytes()).expect("record")).expect("decode");
    let mut batch = Batch::new();
    batch.delete(key.as_bytes());
    batch.delete(memory_index::vecmap_key(rec.vec_id).as_bytes());
    let terms = terms_of(&rec.content);
    let total: u64 = terms.iter().map(|(_, tf)| u64::from(*tf)).sum();
    for (term, _) in &terms {
        batch.delete(&postings_key(agent, term, rec.vec_id));
    }
    batch.delete(&docterms_key(agent, rec.vec_id));
    let old = stats_of(disk, engine, agent);
    let stats = FtsStats { doc_count: old.doc_count - 1, total_terms: old.total_terms - total };
    batch.put(&fts_meta_key(agent), &encode_stats(stats));
    let mut node = disk.node(&peek(disk, engine, vector_index::node_key(rec.vec_id).as_bytes()).expect("node"))
        .expect("decode");
    node.deleted = true;
    batch.extend_from(&stage_node(disk, engine, rec.vec_id, node));
    engine.apply_batch(&mut on(disk), &batch).expect("forget");
}

fn vec_id_of(disk: &Disk, engine: &Engine, agent: &str, id: &str) -> u64 {
    let key = memory_index::record_key(agent, id).expect("record key");
    disk.record(&peek(disk, engine, key.as_bytes()).expect("record")).expect("decode").vec_id
}

fn upsert_entity(disk: &Disk, engine: &mut Engine, agent: &str, id: &str) {
    let key = graph_index::entity_key(agent, id).expect("entity key");
    engine.put(&mut on(disk), key.as_bytes(), &boxed(9, b"person")).expect("entity");
}

fn upsert_edge(disk: &Disk, engine: &mut Engine, agent: &str, src: &str, relation: &str, dst: &str) {
    let key = graph_index::edge_key(agent, src, relation, dst).expect("edge key");
    engine.put(&mut on(disk), key.as_bytes(), &boxed(10, b"1")).expect("edge");
}

// Options and small helpers.

/// Flushes and compacts after a few writes, in small blocks.
fn small_options() -> EngineOptions {
    EngineOptions {
        memtable_flush_threshold: 4,
        compaction_sst_threshold: 2,
        block_size: 256,
        ..EngineOptions::default()
    }
}

fn stats(disk: &Disk, engine: &Engine) -> EngineStats {
    engine.stats(disk.log_len(&engine.dir), disk.fsyncs.get(), disk.unremoved.get())
}

fn get(disk: &Disk, engine: &mut Engine, key: &[u8]) -> Option<Vec<u8>> {
    engine.get(disk, key).expect("get")
}

fn audit(disk: &Disk, key: Option<&[u8]>, mode: VerifyMode) -> Result<VerifyReport, EngineError> {
    verify_store(&mut on(disk), &fts_prefixes(), key, mode)
}

fn has_error(report: &VerifyReport, kind: IssueKind) -> bool {
    report.errors.iter().any(|e| e.kind == kind)
}

fn has_warning(report: &VerifyReport, kind: IssueKind) -> bool {
    report.warnings.iter().any(|w| w.kind == kind)
}

/// Writes rows as a table and puts its bytes on the disk.
fn write_table(disk: &Disk, dir: &str, id: u64, rows: &Rows, block_size: u32) -> BlockSstFile {
    let written = BlockSstFile::write_new(disk, dir, id, rows, block_size).expect("write");
    disk.write(&written.file.path, &written.bytes);
    written.file
}

fn load_table(disk: &Disk, path: &str, id: u64) -> Result<BlockSstFile, EngineError> {
    let len = disk.read(path).expect("file").len() as u64;
    BlockSstFile::load(disk, path.to_string(), id, len, HEADER_LEN as u64, FOOTER_LEN as u64)
}

fn entries(n: usize, val_len: usize) -> Rows {
    (0..n)
        .map(|i| {
            let key = Key::from(format!("k/{i:06}").as_bytes());
            let value = if i % 7 == 0 { None } else { Some(vec![b'v'; val_len]) };
            (key, value)
        })
        .collect()
}

fn fixed_size_entries(n: usize, val_len: usize) -> Rows {
    (0..n).map(|i| (Key::from(format!("k/{i:06}").as_bytes()), Some(vec![b'v'; val_len]))).collect()
}

/// A disk on which the root directory has a data key.
fn sealed_disk() -> Disk {
    let disk = Disk::new();
    let key = UserKey { bytes: b"sst block test key".to_vec(), mode: KeyMode::RawKey, profile: Argon2idProfile::Default };
    on(&disk).create_crypto("", &key, None).expect("create crypto meta");
    disk
}

fn patch_footer(disk: &Disk, path: &str, patch: impl FnOnce(&mut SstFooter)) {
    let mut raw = disk.read(path).expect("file");
    let start = raw.len() - FOOTER_LEN;
    let payload = unseal(None, 0, FOOTER, 0, &raw[start..]).expect("footer");
    let mut footer = take_footer(&payload).expect("decode footer");
    patch(&mut footer);
    let forged = seal(None, 0, FOOTER, 0, &footer_bytes(&footer));
    assert_eq!(forged.len(), FOOTER_LEN);
    raw[start..].copy_from_slice(&forged);
    disk.write(path, &raw);
}

fn footer_of(disk: &Disk, path: &str) -> SstFooter {
    let raw = disk.read(path).expect("file");
    let payload = unseal(None, 0, FOOTER, 0, &raw[raw.len() - FOOTER_LEN..]).expect("footer");
    take_footer(&payload).expect("decode footer")
}

fn patch_index(disk: &Disk, path: &str, patch: impl FnOnce(&mut Vec<SstBlockIndexEntry>)) {
    let mut raw = disk.read(path).expect("file");
    let footer = footer_of(disk, path);
    let (from, to) = (footer.index_offset as usize, footer.index_offset as usize + footer.index_len as usize);
    let payload = unseal(None, 0, INDEX, 0, &raw[from..to]).expect("index");
    let mut index = take_index(&payload).expect("decode index");
    patch(&mut index);
    let forged = seal(None, 0, INDEX, 0, &index_bytes(&index));
    assert_eq!(forged.len(), to - from);
    raw[from..to].copy_from_slice(&forged);
    disk.write(path, &raw);
}

// Tables.

fn write_then_load_roundtrips_small() {
    let disk = Disk::new();
    let data = entries(5, 10);
    let written = write_table(&disk, "", 0, &data, 16 * 1024);
    let loaded = load_table(&disk, &written.path, 0).expect("load");
    assert_eq!(loaded.entries(&disk).expect("entries"), data);
}

#[test]
fn sst_block_write_then_load_roundtrips_small() {
    write_then_load_roundtrips_small();
}

#[test]
fn write_write_then_load_roundtrips_small() {
    write_then_load_roundtrips_small();
}

fn empty_entries_roundtrip() {
    let disk = Disk::new();
    let written = write_table(&disk, "", 0, &Vec::new(), 16 * 1024);
    let loaded = load_table(&disk, &written.path, 0).expect("load");
    assert!(loaded.entries(&disk).expect("entries").is_empty());
    assert_eq!(loaded.tombstones, 0);
}

#[test]
fn sst_block_empty_entries_roundtrip() {
    empty_entries_roundtrip();
}

#[test]
fn write_empty_entries_roundtrip() {
    empty_entries_roundtrip();
}

fn write_then_load_roundtrips_across_many_blocks() {
    let disk = Disk::new();
    let data = entries(500, 200);
    let written = write_table(&disk, "", 0, &data, 2048);
    let loaded = load_table(&disk, &written.path, 0).expect("load");
    assert_eq!(loaded.entries(&disk).expect("entries"), data);
}

#[test]
fn sst_block_write_then_load_roundtrips_across_many_blocks() {
    write_then_load_roundtrips_across_many_blocks();
}

#[test]
fn write_write_then_load_roundtrips_across_many_blocks() {
    write_then_load_roundtrips_across_many_blocks();
}

fn get_finds_put_and_tombstone() {
    let disk = Disk::new();
    let data = entries(10, 5);
    let written = write_table(&disk, "", 0, &data, 16 * 1024);
    let loaded = load_table(&disk, &written.path, 0).expect("load");
    let mut cache = BlockCache::new(1024 * 1024);
    for (key, value) in &data {
        let (hit, blocks_read) = loaded.get(&disk, key.as_bytes(), &mut cache).expect("get");
        assert_eq!(hit, Some(value.clone()));
        assert!(blocks_read <= 1);
    }
    let (hit, blocks_read) = loaded.get(&disk, b"missing", &mut cache).expect("get");
    assert_eq!(hit, None);
    assert!(blocks_read <= 1);
}

#[test]
fn sst_block_get_finds_put_and_tombstone() {
    get_finds_put_and_tombstone();
}

#[test]
fn read_get_finds_put_and_tombstone() {
    get_finds_put_and_tombstone();
}

fn get_across_many_blocks_never_reads_more_than_one_block() {
    let disk = Disk::new();
    let data = entries(2000, 100);
    let written = write_table(&disk, "", 0, &data, 4096);
    let loaded = load_table(&disk, &written.path, 0).expect("load");
    assert!(loaded.block_index.len() > 10, "test needs many blocks");
    for (key, _) in data.iter().step_by(37) {
        let mut cache = BlockCache::new(1024 * 1024);
        let (_, blocks_read) = loaded.get(&disk, key.as_bytes(), &mut cache).expect("get");
        assert_eq!(blocks_read, 1, "a present key must resolve within exactly one block read on a cold cache");
    }
    let mut cache = BlockCache::new(1024 * 1024);
    for i in 0..50u32 {
        let key = format!("zzz/absent/{i}");
        let (hit, blocks_read) = loaded.get(&disk, key.as_bytes(), &mut cache).expect("get");
        assert_eq!(hit, None);
        assert!(blocks_read <= 1);
    }
}

#[test]
fn sst_block_get_across_many_blocks_never_reads_more_than_one_block() {
    get_across_many_blocks_never_reads_more_than_one_block();
}

#[test]
fn read_get_across_many_blocks_never_reads_more_than_one_block() {
    get_across_many_blocks_never_reads_more_than_one_block();
}

fn get_reuses_cached_block_on_repeated_lookup_in_the_same_block() {
    let disk = Disk::new();
    let data = entries(200, 50);
    let written = write_table(&disk, "", 0, &data, 4096);
    let loaded = load_table(&disk, &written.path, 0).expect("load");
    let mut cache = BlockCache::new(1024 * 1024);
    let key = data[0].0.as_bytes();
    let (_, first) = loaded.get(&disk, key, &mut cache).expect("get");
    assert_eq!(first, 1, "first lookup of a block is a real disk read");
    let (_, second) = loaded.get(&disk, key, &mut cache).expect("get");
    assert_eq!(second, 0, "repeated lookup of the same block must hit the cache, not disk");
}

#[test]
fn sst_block_get_reuses_cached_block_on_repeated_lookup_in_the_same_block() {
    get_reuses_cached_block_on_repeated_lookup_in_the_same_block();
}

#[test]
fn read_get_reuses_cached_block_on_repeated_lookup_in_the_same_block() {
    get_reuses_cached_block_on_repeated_lookup_in_the_same_block();
}

fn corrupted_data_block_is_rejected_lazily_not_at_open() {
    let disk = Disk::new();
    let written = write_table(&disk, "", 0, &entries(50, 50), 512);
    disk.flip(&written.path, HEADER_LEN + 4);
    let loaded = load_table(&disk, &written.path, 0).expect("load succeeds: metadata is untouched");
    let err = loaded.entries(&disk).expect_err("reading the corrupt block must fail");
    assert!(matches!(err, EngineError::CorruptSstDataBlock { .. } | EngineError::CorruptSstBlockIndex { .. }));
}

#[test]
fn sst_block_corrupted_data_block_is_rejected_lazily_not_at_open() {
    corrupted_data_block_is_rejected_lazily_not_at_open();
}

#[test]
fn read_corrupted_data_block_is_rejected_lazily_not_at_open() {
    corrupted_data_block_is_rejected_lazily_not_at_open();
}

fn truncated_file_is_rejected_not_panicking() {
    let disk = Disk::new();
    let written = write_table(&disk, "", 0, &entries(20, 20), 512);
    let raw = disk.read(&written.path).expect("read raw");
    disk.write(&written.path, &raw[..raw.len() - 10]);
    let err = load_table(&disk, &written.path, 0).expect_err("truncated file must be rejected");
    assert!(matches!(err, EngineError::CorruptSstFooter { .. } | EngineError::Io { .. }));
}

#[test]
fn sst_block_truncated_file_is_rejected_not_panicking() {
    truncated_file_is_rejected_not_panicking();
}

#[test]
fn read_truncated_file_is_rejected_not_panicking() {
    truncated_file_is_rejected_not_panicking();
}

#[test]
fn forged_huge_index_len_is_rejected_typed_not_by_attempting_the_allocation() {
    let disk = Disk::new();
    let written = write_table(&disk, "", 0, &entries(5, 20), 512);
    patch_footer(&disk, &written.path, |footer| footer.index_len = u32::MAX);
    let err = load_table(&disk, &written.path, 0).expect_err("forged index_len must be rejected");
    assert!(matches!(err, EngineError::CorruptSstBlockIndex { .. }));
}

#[test]
fn forged_huge_bloom_len_is_rejected_typed_not_by_attempting_the_allocation() {
    let disk = Disk::new();
    let written = write_table(&disk, "", 0, &entries(5, 20), 512);
    patch_footer(&disk, &written.path, |footer| footer.bloom_len = u32::MAX);
    let err = load_table(&disk, &written.path, 0).expect_err("forged bloom_len must be rejected");
    assert!(matches!(err, EngineError::CorruptSstBloomFilter { .. }));
}

#[test]
fn forged_index_offset_past_eof_is_rejected_typed() {
    let disk = Disk::new();
    let written = write_table(&disk, "", 0, &entries(5, 20), 512);
    patch_footer(&disk, &written.path, |footer| footer.index_offset = u64::MAX - 8);
    let err = load_table(&disk, &written.path, 0).expect_err("forged index_offset must be rejected");
    assert!(matches!(err, EngineError::CorruptSstBlockIndex { .. }));
}

#[test]
fn forged_block_index_entry_with_huge_len_is_rejected_lazily_not_by_attempting_the_allocation() {
    let disk = Disk::new();
    let written = write_table(&disk, "", 0, &entries(5, 20), 512);
    patch_index(&disk, &written.path, |index| {
        assert_eq!(index.len(), 1, "test assumes a single data block");
        index[0].len = u32::MAX;
    });
    let loaded = load_table(&disk, &written.path, 0).expect("load: metadata cross-checks still pass");
    let err = loaded.entries(&disk).expect_err("reading the forged block must fail");
    assert!(matches!(err, EngineError::CorruptSstDataBlock { .. }));
}

#[test]
fn forged_reordered_block_index_is_rejected_typed_at_load() {
    let disk = Disk::new();
    let data: Rows = (0..10).map(|i| (Key::from(format!("k/{i:04}").as_bytes()), Some(vec![b'v'; 20]))).collect();
    let written = write_table(&disk, "", 0, &data, 64);
    patch_index(&disk, &written.path, |index| {
        assert!(index.len() >= 2, "test assumes at least two data blocks");
        index.swap(0, 1);
    });
    let err = load_table(&disk, &written.path, 0).expect_err("reordered block index must be rejected at load");
    assert!(matches!(err, EngineError::CorruptSstBlockIndex { .. }));
}

fn encrypted_write_then_load_roundtrips_and_hides_plaintext() {
    let disk = sealed_disk();
    let data = vec![
        (Key::from(&b"tombstoned"[..]), None),
        (Key::from(&b"visible-key"[..]), Some(b"secret-value".to_vec())),
    ];
    let written = write_table(&disk, "", 0, &data, 16 * 1024);
    let raw = disk.read(&written.path).expect("read raw sst");
    for needle in [&b"visible-key"[..], b"secret-value", b"tombstoned"] {
        assert!(!raw.windows(needle.len()).any(|w| w == needle), "plaintext {needle:?} leaked into the file");
    }
    let loaded = load_table(&disk, &written.path, 0).expect("load");
    assert_eq!(loaded.entries(&disk).expect("entries"), data);
    let mut cache = BlockCache::new(1024 * 1024);
    for (key, value) in &data {
        let (hit, _) = loaded.get(&disk, key.as_bytes(), &mut cache).expect("get");
        assert_eq!(hit, Some(value.clone()));
    }
}

#[test]
fn sst_block_encrypted_write_then_load_roundtrips_and_hides_plaintext() {
    encrypted_write_then_load_roundtrips_and_hides_plaintext();
}

#[test]
fn read_encrypted_write_then_load_roundtrips_and_hides_plaintext() {
    encrypted_write_then_load_roundtrips_and_hides_plaintext();
}

fn encrypted_load_rejects_tampered_footer() {
    let disk = sealed_disk();
    let data = vec![(Key::from(&b"a"[..]), Some(b"1".to_vec()))];
    let written = write_table(&disk, "", 0, &data, 16 * 1024);
    let last = disk.read(&written.path).expect("read").len() - 1;
    disk.flip(&written.path, last);
    let err = load_table(&disk, &written.path, 0).expect_err("tampered footer must fail at open");
    assert!(matches!(err, EngineError::CorruptEncryptedSstBlock { .. } | EngineError::CorruptSstFooter { .. }));
}

#[test]
fn sst_block_encrypted_load_rejects_tampered_footer() {
    encrypted_load_rejects_tampered_footer();
}

#[test]
fn read_encrypted_load_rejects_tampered_footer() {
    encrypted_load_rejects_tampered_footer();
}

fn encrypted_load_rejects_tampered_data_block_lazily() {
    let disk = sealed_disk();
    let written = write_table(&disk, "", 0, &entries(50, 50), 512);
    disk.flip(&written.path, HEADER_LEN + 40);
    let loaded = load_table(&disk, &written.path, 0).expect("load: metadata sections untouched");
    let err = loaded.entries(&disk).expect_err("reading the tampered block must fail");
    assert!(matches!(err, EngineError::CorruptEncryptedSstBlock { .. }));
}

#[test]
fn sst_block_encrypted_load_rejects_tampered_data_block_lazily() {
    encrypted_load_rejects_tampered_data_block_lazily();
}

#[test]
fn read_encrypted_load_rejects_tampered_data_block_lazily() {
    encrypted_load_rejects_tampered_data_block_lazily();
}

fn plaintext_sst_read_in_encrypted_mode_is_loud_corruption() {
    let disk = Disk::new();
    let data = vec![(Key::from(&b"a"[..]), Some(b"1".to_vec()))];
    let written = write_table(&disk, "", 0, &data, 16 * 1024);
    disk.keys.borrow_mut().insert(String::new(), 7);
    let err = load_table(&disk, &written.path, 0).expect_err("mode mismatch must be loud");
    assert!(matches!(err, EngineError::CorruptEncryptedSstBlock { .. } | EngineError::CorruptSstFooter { .. }));
}

#[test]
fn sst_block_plaintext_sst_read_in_encrypted_mode_is_loud_corruption() {
    plaintext_sst_read_in_encrypted_mode_is_loud_corruption();
}

#[test]
fn read_plaintext_sst_read_in_encrypted_mode_is_loud_corruption() {
    plaintext_sst_read_in_encrypted_mode_is_loud_corruption();
}

fn encrypted_block_moved_between_two_ssts_fails_authentication() {
    let disk = sealed_disk();
    let data = fixed_size_entries(60, 50);
    let a = write_table(&disk, "", 0, &data, 512);
    let b = write_table(&disk, "", 1, &data, 512);
    assert!(!a.block_index.is_empty() && !b.block_index.is_empty());
    let mut bytes_a = disk.read(&a.path).expect("read a");
    let bytes_b = disk.read(&b.path).expect("read b");
    let (offset, len) = (a.block_index[0].offset as usize, a.block_index[0].len as usize);
    assert_eq!(bytes_b.len(), bytes_a.len(), "identical entries must produce identical file layouts");
    bytes_a[offset..offset + len].copy_from_slice(&bytes_b[offset..offset + len]);
    disk.write(&a.path, &bytes_a);
    let loaded = load_table(&disk, &a.path, 0).expect("metadata sections untouched");
    let err = loaded.entries(&disk).expect_err("a block from another SST must fail authentication");
    assert!(matches!(err, EngineError::CorruptEncryptedSstBlock { .. }));
}

#[test]
fn sst_block_encrypted_block_moved_between_two_ssts_fails_authentication() {
    encrypted_block_moved_between_two_ssts_fails_authentication();
}

#[test]
fn read_encrypted_block_moved_between_two_ssts_fails_authentication() {
    encrypted_block_moved_between_two_ssts_fails_authentication();
}

fn encrypted_blocks_swapped_within_the_same_sst_fail_authentication() {
    let disk = sealed_disk();
    let written = write_table(&disk, "", 0, &fixed_size_entries(60, 50), 512);
    assert!(written.block_index.len() >= 2, "test needs at least two blocks");
    let (b0, b1) = (&written.block_index[0], &written.block_index[1]);
    assert_eq!(b0.len, b1.len, "fixed-size entries must produce equal-length blocks");
    let mut bytes = disk.read(&written.path).expect("read raw");
    let (o0, o1, len) = (b0.offset as usize, b1.offset as usize, b0.len as usize);
    let block0 = bytes[o0..o0 + len].to_vec();
    let block1 = bytes[o1..o1 + len].to_vec();
    bytes[o0..o0 + len].copy_from_slice(&block1);
    bytes[o1..o1 + len].copy_from_slice(&block0);
    disk.write(&written.path, &bytes);
    let loaded = load_table(&disk, &written.path, 0).expect("metadata sections untouched");
    let err = loaded.entries(&disk).expect_err("swapped blocks must fail authentication");
    assert!(matches!(err, EngineError::CorruptEncryptedSstBlock { .. }));
}

fn names(disk: &Disk, dir: &str) -> Vec<String> {
    disk.list(dir).expect("list").into_iter().map(|e| e.name).collect()
}

#[test]
fn sst_block_encrypted_blocks_swapped_within_the_same_sst_fail_authentication() {
    encrypted_blocks_swapped_within_the_same_sst_fail_authentication();
}

#[test]
fn read_encrypted_blocks_swapped_within_the_same_sst_fail_authentication() {
    encrypted_blocks_swapped_within_the_same_sst_fail_authentication();
}

fn scan_existing_ignores_tmp_orphans() {
    let disk = Disk::new();
    let data = vec![(Key::from(&b"a"[..]), Some(b"1".to_vec()))];
    write_table(&disk, "", 0, &data, 16 * 1024);
    disk.write("00000000000000000001.sst.tmp", b"garbage");
    let found = scan_existing(&names(&disk, ""));
    assert_eq!(found.len(), 1);
    assert_eq!(found[0], 0);
}

#[test]
fn sst_block_scan_existing_ignores_tmp_orphans() {
    scan_existing_ignores_tmp_orphans();
}

#[test]
fn mod_scan_existing_ignores_tmp_orphans() {
    scan_existing_ignores_tmp_orphans();
}

fn scan_existing_sorts_ascending_by_id() {
    let disk = Disk::new();
    write_table(&disk, "", 5, &vec![(Key::from(&b"a"[..]), Some(b"1".to_vec()))], 16 * 1024);
    write_table(&disk, "", 2, &vec![(Key::from(&b"b"[..]), Some(b"2".to_vec()))], 16 * 1024);
    let found = scan_existing(&names(&disk, ""));
    assert_eq!(found, vec![2, 5]);
}

#[test]
fn sst_block_scan_existing_sorts_ascending_by_id() {
    scan_existing_sorts_ascending_by_id();
}

#[test]
fn mod_scan_existing_sorts_ascending_by_id() {
    scan_existing_sorts_ascending_by_id();
}

fn open_reads_only_metadata_not_data_payload() {
    let disk = Disk::new();
    let written = write_table(&disk, "", 0, &entries(5000, 200), 4096);
    let file_bytes = written.file_bytes;
    let loaded = load_table(&disk, &written.path, 0).expect("load");
    assert!(
        loaded.bytes_read_at_open < file_bytes / 4,
        "open read {} bytes out of a {file_bytes}-byte file",
        loaded.bytes_read_at_open
    );
    assert_eq!(disk.block_reads.get(), 0);
}

fn three_families() -> Rows {
    let mut data: Rows = Vec::new();
    for family in ["graph", "user", "vector"] {
        for i in 0..300 {
            let key = Key::from(format!("{family}/{i:06}").as_bytes());
            let value = if i % 7 == 0 { None } else { Some(vec![b'v'; 50]) };
            data.push((key, value));
        }
    }
    data
}

fn sandwiched() -> Rows {
    let mut data: Rows = Vec::new();
    for family in ["aaa", "middle", "zzz"] {
        let count = if family == "middle" { 20 } else { 1000 };
        for i in 0..count {
            data.push((Key::from(format!("{family}/{i:06}").as_bytes()), Some(vec![b'v'; 100])));
        }
    }
    data
}

#[test]
fn sst_block_open_reads_only_metadata_not_data_payload() {
    open_reads_only_metadata_not_data_payload();
}

#[test]
fn mod_open_reads_only_metadata_not_data_payload() {
    open_reads_only_metadata_not_data_payload();
}

#[test]
fn entries_with_prefix_matches_full_scan_filter() {
    let disk = Disk::new();
    let data = three_families();
    let written = write_table(&disk, "", 0, &data, 2048);
    let loaded = load_table(&disk, &written.path, 0).expect("load");
    for prefix in [&b"graph/"[..], b"user/", b"vector/", b"user/000001", b"", b"absent/"] {
        let expected: Rows = data.iter().filter(|(k, _)| k.as_bytes().starts_with(prefix)).cloned().collect();
        let (got, _) = loaded.entries_with_prefix(&disk, prefix).expect("prefix scan");
        assert_eq!(got, expected, "prefix {:?}", String::from_utf8_lossy(prefix));
    }
}

#[test]
fn entries_with_prefix_decodes_only_overlapping_blocks() {
    let disk = Disk::new();
    let data = sandwiched();
    let written = write_table(&disk, "", 0, &data, 4096);
    let loaded = load_table(&disk, &written.path, 0).expect("load");
    let total_blocks = loaded.block_index.len() as u64;
    assert!(total_blocks > 20, "test needs many blocks, got {total_blocks}");

    let (got, blocks_read) = loaded.entries_with_prefix(&disk, b"middle/").expect("prefix scan");
    assert_eq!(got.len(), 20);
    assert!(blocks_read <= 3, "narrow prefix must decode only its overlapping blocks, read {blocks_read}");

    let (got, blocks_read) = loaded.entries_with_prefix(&disk, b"zzzz/").expect("prefix scan");
    assert!(got.is_empty());
    assert_eq!(blocks_read, 0);

    let (got, blocks_read) = loaded.entries_with_prefix(&disk, b"AAA/").expect("prefix scan");
    assert!(got.is_empty());
    assert!(blocks_read <= 1);

    let (got, blocks_read) = loaded.entries_with_prefix(&disk, b"").expect("prefix scan");
    assert_eq!(got.len(), data.len());
    assert_eq!(blocks_read, total_blocks);
}

#[test]
fn entries_with_range_matches_full_scan_filter() {
    let disk = Disk::new();
    let data = three_families();
    let written = write_table(&disk, "", 0, &data, 2048);
    let loaded = load_table(&disk, &written.path, 0).expect("load");
    let cases: [(&[u8], &[u8]); 5] = [
        (b"graph/", b"user/"),
        (b"user/000050", b"user/000150"),
        (b"", b"aaa"),
        (b"zzzz", b"zzzz0"),
        (b"vector/", b"vector0"),
    ];
    for (start, end) in cases {
        let expected: Rows =
            data.iter().filter(|(k, _)| k.as_bytes() >= start && k.as_bytes() < end).cloned().collect();
        let (got, _) = loaded.entries_with_range(&disk, start, end).expect("range scan");
        assert_eq!(got, expected);
    }
    let (got, blocks_read) = loaded.entries_with_range(&disk, b"user/", b"user/").expect("range scan");
    assert!(got.is_empty());
    assert_eq!(blocks_read, 0);
    let (got, blocks_read) = loaded.entries_with_range(&disk, b"zzz", b"aaa").expect("range scan");
    assert!(got.is_empty());
    assert_eq!(blocks_read, 0);
}

#[test]
fn entries_with_range_decodes_only_overlapping_blocks() {
    let disk = Disk::new();
    let data = sandwiched();
    let written = write_table(&disk, "", 0, &data, 4096);
    let loaded = load_table(&disk, &written.path, 0).expect("load");
    let total_blocks = loaded.block_index.len() as u64;
    assert!(total_blocks > 20, "test needs many blocks, got {total_blocks}");

    let (got, blocks_read) = loaded.entries_with_range(&disk, b"middle/", b"middle0").expect("range scan");
    assert_eq!(got.len(), 20);
    assert!(blocks_read <= 3, "narrow range must decode only its overlapping blocks, read {blocks_read}");

    let (got, blocks_read) = loaded.entries_with_range(&disk, b"zzzz/", b"zzzz0").expect("range scan");
    assert!(got.is_empty());
    assert_eq!(blocks_read, 0);

    let (got, blocks_read) = loaded.entries_with_range(&disk, b"", &[0xff]).expect("range scan");
    assert_eq!(got.len(), data.len());
    assert_eq!(blocks_read, total_blocks);
}

#[test]
fn entries_with_range_limited_pages_reassemble_the_full_range() {
    let disk = Disk::new();
    let data = entries(400, 60);
    let written = write_table(&disk, "", 0, &data, 1024);
    let loaded = load_table(&disk, &written.path, 0).expect("load");
    assert!(loaded.block_index.len() > 10, "test needs many blocks");

    let (full, _) = loaded.entries_with_range(&disk, b"k/", b"k0").expect("range scan");
    assert_eq!(full.len(), data.len());

    let mut start: Vec<u8> = b"k/".to_vec();
    let mut reassembled: Rows = Vec::new();
    loop {
        let (page, truncated, _) =
            loaded.entries_with_range_limited(&disk, &start, b"k0", 37).expect("limited scan");
        if truncated {
            assert!(page.len() >= 37, "a truncated page must have gathered at least `limit` matches");
        }
        let last = page.last().map(|(k, _)| k.as_bytes().to_vec());
        reassembled.extend(page);
        if !truncated {
            break;
        }
        let mut next = last.expect("truncated implies a non-empty page");
        next.push(0x00);
        start = next;
    }
    assert_eq!(reassembled, full, "chained limited pages must reassemble the full range");
}

#[test]
fn entries_with_range_limited_stops_reading_blocks_early() {
    let disk = Disk::new();
    let written = write_table(&disk, "", 0, &fixed_size_entries(2000, 100), 4096);
    let loaded = load_table(&disk, &written.path, 0).expect("load");
    let total_blocks = loaded.block_index.len() as u64;
    assert!(total_blocks > 20, "test needs many blocks, got {total_blocks}");

    let (page, truncated, blocks_read) =
        loaded.entries_with_range_limited(&disk, b"k/", b"k0", 10).expect("limited scan");
    assert!(truncated);
    assert!(page.len() >= 10);
    assert!(blocks_read <= 2, "a small limit must stop after a couple of blocks, read {blocks_read}");

    let (page, truncated, _) =
        loaded.entries_with_range_limited(&disk, b"k/", b"k0", usize::MAX).expect("limited scan");
    assert!(!truncated);
    assert_eq!(page.len(), 2000);

    let (page, truncated, blocks_read) =
        loaded.entries_with_range_limited(&disk, b"k0", b"k/", 10).expect("limited scan");
    assert!(page.is_empty() && !truncated && blocks_read == 0);
    let (page, truncated, blocks_read) =
        loaded.entries_with_range_limited(&disk, b"k/", b"k0", 0).expect("limited scan");
    assert!(page.is_empty() && !truncated && blocks_read == 0);
}

#[test]
fn entries_with_prefix_roundtrips_encrypted() {
    let disk = sealed_disk();
    let data = entries(500, 100);
    let written = write_table(&disk, "", 3, &data, 2048);
    let loaded = load_table(&disk, &written.path, 3).expect("load");
    let prefix = b"k/0001";
    let expected: Rows = data.iter().filter(|(k, _)| k.as_bytes().starts_with(prefix)).cloned().collect();
    let (got, blocks_read) = loaded.entries_with_prefix(&disk, prefix).expect("prefix scan");
    assert_eq!(got, expected);
    assert!(blocks_read < loaded.block_index.len() as u64, "narrow prefix must not decode the whole table");
}

// Whole-file tables.

fn whole_entries() -> Rows {
    vec![(Key::from(&b"a"[..]), Some(b"1".to_vec())), (Key::from(&b"b"[..]), None)]
}

#[test]
fn write_then_load_roundtrips() {
    let disk = Disk::new();
    let written = SstFile::write_new(&mut on(&disk), "", 0, whole_entries()).expect("write");
    let loaded = SstFile::load(&disk, written.path, 0).expect("load");
    assert_eq!(*loaded.entries(), whole_entries());
}

#[test]
fn sst_get_finds_put_and_tombstone() {
    let disk = Disk::new();
    let sst = SstFile::write_new(&mut on(&disk), "", 0, whole_entries()).expect("write");
    assert_eq!(sst.get(&Key::from(&b"a"[..])), Some(Some(&b"1".to_vec())));
    assert_eq!(sst.get(&Key::from(&b"b"[..])), Some(None));
    assert_eq!(sst.get(&Key::from(&b"missing"[..])), None);
}

#[test]
fn sst_scan_existing_ignores_tmp_orphans() {
    let disk = Disk::new();
    SstFile::write_new(&mut on(&disk), "", 0, vec![(Key::from(&b"a"[..]), Some(b"1".to_vec()))]).expect("write");
    disk.write("00000000000000000001.sst.tmp", b"garbage");
    let found = scan_whole(&disk, "", &disk.list("").expect("list")).expect("scan");
    assert_eq!(found.len(), 1);
    assert_eq!(found[0].id, 0);
}

#[test]
fn sst_scan_existing_sorts_ascending_by_id() {
    let disk = Disk::new();
    SstFile::write_new(&mut on(&disk), "", 5, vec![(Key::from(&b"a"[..]), Some(b"1".to_vec()))]).expect("write");
    SstFile::write_new(&mut on(&disk), "", 2, vec![(Key::from(&b"b"[..]), Some(b"2".to_vec()))]).expect("write");
    let found = scan_whole(&disk, "", &disk.list("").expect("list")).expect("scan");
    let ids: Vec<_> = found.iter().map(|s| s.id).collect();
    assert_eq!(ids, vec![2, 5]);
}

#[test]
fn sst_encrypted_write_then_load_roundtrips_and_hides_plaintext() {
    let disk = sealed_disk();
    let data = vec![
        (Key::from(&b"visible-key"[..]), Some(b"secret-value".to_vec())),
        (Key::from(&b"tombstoned"[..]), None),
    ];
    let written = SstFile::write_new(&mut on(&disk), "", 0, data.clone()).expect("write");
    let raw = disk.read(&written.path).expect("read raw sst");
    for needle in [&b"visible-key"[..], b"secret-value", b"tombstoned"] {
        assert!(!raw.windows(needle.len()).any(|w| w == needle), "plaintext {needle:?} leaked into the file");
    }
    let loaded = SstFile::load(&disk, written.path, 0).expect("load");
    assert_eq!(*loaded.entries(), data);
}

#[test]
fn encrypted_load_rejects_tampered_file() {
    let disk = sealed_disk();
    let written =
        SstFile::write_new(&mut on(&disk), "", 0, vec![(Key::from(&b"a"[..]), Some(b"1".to_vec()))]).expect("write");
    let last = disk.read(&written.path).expect("read").len() - 1;
    disk.flip(&written.path, last);
    let err = SstFile::load(&disk, written.path, 0).expect_err("tampered sst must fail");
    assert!(matches!(err, EngineError::CorruptSst { .. }));
}

#[test]
fn sst_plaintext_sst_read_in_encrypted_mode_is_loud_corruption() {
    let disk = Disk::new();
    let written =
        SstFile::write_new(&mut on(&disk), "", 0, vec![(Key::from(&b"a"[..]), Some(b"1".to_vec()))]).expect("write");
    disk.keys.borrow_mut().insert(String::new(), 7);
    let err = SstFile::load(&disk, written.path, 0).expect_err("mode mismatch must be loud");
    assert!(matches!(err, EngineError::CorruptSst { .. }));
}

// The engine.

fn encrypted_roundtrip_survives_flush_compaction_and_reopen() {
    let disk = Disk::new();
    {
        let mut engine = Engine::open_encrypted_with_options(&mut on(&disk), KEY, small_options()).expect("open");
        assert!(engine.is_encrypted());
        for i in 0..20u32 {
            engine
                .put(&mut on(&disk), format!("key-{i:03}").as_bytes(), format!("value-{i}").as_bytes())
                .expect("put");
        }
        engine.delete(&mut on(&disk), b"key-003").expect("delete");
        engine.put(&mut on(&disk), b"tail", b"unflushed").expect("put tail");
    }
    disk.restart();
    let mut engine = Engine::open_encrypted_with_options(&mut on(&disk), KEY, small_options()).expect("reopen");
    assert_eq!(get(&disk, &mut engine, b"key-000").as_deref(), Some(&b"value-0"[..]));
    assert_eq!(get(&disk, &mut engine, b"key-019").as_deref(), Some(&b"value-19"[..]));
    assert_eq!(get(&disk, &mut engine, b"key-003"), None);
    assert_eq!(get(&disk, &mut engine, b"tail").as_deref(), Some(&b"unflushed"[..]));
}

#[test]
fn engine_encrypted_roundtrip_survives_flush_compaction_and_reopen() {
    encrypted_roundtrip_survives_flush_compaction_and_reopen();
}

#[test]
fn open_encrypted_roundtrip_survives_flush_compaction_and_reopen() {
    encrypted_roundtrip_survives_flush_compaction_and_reopen();
}

fn legacy_store_meta_is_stamped_with_a_stable_id_under_the_writer_lock() {
    let disk = Disk::new();
    let legacy = StoreMeta { store_format_version: STORE_FORMAT_VERSION, store_id: None };
    on(&disk).write_store_meta(&legacy).expect("write legacy record");
    let engine = Engine::open_encrypted(&mut on(&disk), KEY).expect("open upgrades the record");
    let Ok(decoded) = disk.read_store_meta() else {
        panic!("decode upgraded record")
    };
    assert_eq!(decoded.store_id, Some(engine.store_id()));
}

#[test]
fn engine_legacy_store_meta_is_stamped_with_a_stable_id_under_the_writer_lock() {
    legacy_store_meta_is_stamped_with_a_stable_id_under_the_writer_lock();
}

#[test]
fn open_legacy_store_meta_is_stamped_with_a_stable_id_under_the_writer_lock() {
    legacy_store_meta_is_stamped_with_a_stable_id_under_the_writer_lock();
}

fn generation_pointer_never_falls_back_to_root_artifacts() {
    let disk = Disk::new();
    drop(Engine::open_encrypted(&mut on(&disk), KEY).expect("create legacy root store"));
    disk.restart();
    disk.write("generation.meta", &generation_pointer(1));
    let err = Engine::open_encrypted(&mut on(&disk), KEY).expect_err("missing active generation must fail");
    assert!(matches!(err, EngineError::CorruptGenerationMeta { .. }));
}

#[test]
fn engine_generation_pointer_never_falls_back_to_root_artifacts() {
    generation_pointer_never_falls_back_to_root_artifacts();
}

#[test]
fn open_generation_pointer_never_falls_back_to_root_artifacts() {
    generation_pointer_never_falls_back_to_root_artifacts();
}

fn generation_pointer_requires_matching_crypto_meta_generation() {
    let disk = Disk::new();
    drop(Engine::open_encrypted(&mut on(&disk), KEY).expect("create root store metadata"));
    disk.restart();
    on(&disk).create_dir("gen-1").expect("create generation directory");
    let key = UserKey { bytes: KEY.to_vec(), mode: KeyMode::RawKey, profile: Argon2idProfile::Default };
    on(&disk).create_crypto("gen-1", &key, Some(0)).expect("create mismatched crypto meta");
    disk.write("generation.meta", &generation_pointer(1));
    let err = Engine::open_encrypted(&mut on(&disk), KEY).expect_err("mismatched generation must fail");
    assert!(matches!(err, EngineError::CorruptCryptoMeta { .. }));
}

#[test]
fn engine_generation_pointer_requires_matching_crypto_meta_generation() {
    generation_pointer_requires_matching_crypto_meta_generation();
}

#[test]
fn open_generation_pointer_requires_matching_crypto_meta_generation() {
    generation_pointer_requires_matching_crypto_meta_generation();
}

fn published_generation_missing_crypto_meta_is_never_reinitialized() {
    let disk = Disk::new();
    {
        let mut engine = Engine::open_encrypted(&mut on(&disk), KEY).expect("open");
        engine.put(&mut on(&disk), b"key", b"value").expect("put");
        engine.rotate_key_full(&mut on(&disk), b"fresh key", disk.fsyncs.get()).expect("full rotate");
    }
    disk.remove("gen-1/crypto.meta");
    for key in [None, Some(&b"fresh key"[..])] {
        disk.restart();
        let result = match key {
            Some(key) => Engine::open_encrypted(&mut on(&disk), key),
            None => Engine::open(&mut on(&disk)),
        };
        assert!(matches!(result, Err(EngineError::CorruptCryptoMeta { .. })));
    }
}

#[test]
fn engine_published_generation_missing_crypto_meta_is_never_reinitialized() {
    published_generation_missing_crypto_meta_is_never_reinitialized();
}

#[test]
fn open_published_generation_missing_crypto_meta_is_never_reinitialized() {
    published_generation_missing_crypto_meta_is_never_reinitialized();
}

fn published_generation_without_store_meta_is_not_restamped() {
    let disk = Disk::new();
    {
        let mut engine = Engine::open_encrypted(&mut on(&disk), KEY).expect("open");
        engine.rotate_key_full(&mut on(&disk), b"fresh key", disk.fsyncs.get()).expect("full rotate");
    }
    disk.restart();
    disk.remove("store.meta");
    let error = Engine::open_encrypted(&mut on(&disk), b"fresh key").expect_err("store.meta must not be recreated");
    assert!(matches!(error, EngineError::UnsupportedStoreFormat { found: 0, .. }));
    assert!(!disk.has("store.meta"));
}

#[test]
fn engine_published_generation_without_store_meta_is_not_restamped() {
    published_generation_without_store_meta_is_not_restamped();
}

#[test]
fn open_published_generation_without_store_meta_is_not_restamped() {
    published_generation_without_store_meta_is_not_restamped();
}

fn encrypted_batch_is_atomic_across_reopen() {
    let disk = Disk::new();
    {
        let mut engine = Engine::open_encrypted(&mut on(&disk), KEY).expect("open");
        let mut batch = Batch::new();
        batch.put(b"a", b"1");
        batch.put(b"b", b"2");
        batch.delete(b"a");
        engine.apply_batch(&mut on(&disk), &batch).expect("apply");
    }
    disk.restart();
    let mut engine = Engine::open_encrypted(&mut on(&disk), KEY).expect("reopen");
    assert_eq!(get(&disk, &mut engine, b"a"), None);
    assert_eq!(get(&disk, &mut engine, b"b").as_deref(), Some(&b"2"[..]));
}

#[test]
fn engine_encrypted_batch_is_atomic_across_reopen() {
    encrypted_batch_is_atomic_across_reopen();
}

#[test]
fn write_encrypted_batch_is_atomic_across_reopen() {
    encrypted_batch_is_atomic_across_reopen();
}

fn wrong_key_fails_fast_and_typed() {
    let disk = Disk::new();
    {
        let mut engine = Engine::open_encrypted(&mut on(&disk), KEY).expect("open");
        engine.put(&mut on(&disk), b"a", b"1").expect("put");
    }
    disk.restart();
    let err = Engine::open_encrypted(&mut on(&disk), b"not the key").expect_err("wrong key must fail");
    assert!(matches!(err, EngineError::WrongEncryptionKey { .. }));
}

#[test]
fn engine_wrong_key_fails_fast_and_typed() {
    wrong_key_fails_fast_and_typed();
}

#[test]
fn open_wrong_key_fails_fast_and_typed() {
    wrong_key_fails_fast_and_typed();
}

fn encrypted_store_without_key_is_missing_key_error() {
    let disk = Disk::new();
    drop(Engine::open_encrypted(&mut on(&disk), KEY).expect("open"));
    disk.restart();
    let err = Engine::open(&mut on(&disk)).expect_err("plaintext open of an encrypted store must fail");
    assert!(matches!(err, EngineError::MissingEncryptionKey { .. }));
}

#[test]
fn engine_encrypted_store_without_key_is_missing_key_error() {
    encrypted_store_without_key_is_missing_key_error();
}

#[test]
fn open_encrypted_store_without_key_is_missing_key_error() {
    encrypted_store_without_key_is_missing_key_error();
}

fn encrypted_reopen_rejects_short_plaintext_wal_without_truncating() {
    let disk = Disk::new();
    drop(Engine::open_encrypted(&mut on(&disk), KEY).expect("create encrypted meta"));
    disk.restart();
    on(&disk).append_put("", b"a", b"1").expect("write plaintext wal");
    let plaintext = disk.log_len("");
    let err = Engine::open_encrypted(&mut on(&disk), KEY).expect_err("plaintext wal must be corrupt in encrypted mode");
    assert!(matches!(err, EngineError::CorruptWal { .. }));
    assert_eq!(disk.log_len(""), plaintext);
}

#[test]
fn engine_encrypted_reopen_rejects_short_plaintext_wal_without_truncating() {
    encrypted_reopen_rejects_short_plaintext_wal_without_truncating();
}

#[test]
fn open_encrypted_reopen_rejects_short_plaintext_wal_without_truncating() {
    encrypted_reopen_rejects_short_plaintext_wal_without_truncating();
}

fn key_on_existing_plaintext_store_is_refused() {
    let disk = Disk::new();
    {
        let mut engine = Engine::open(&mut on(&disk)).expect("open plaintext");
        engine.put(&mut on(&disk), b"a", b"1").expect("put");
    }
    disk.restart();
    let err = Engine::open_encrypted(&mut on(&disk), KEY).expect_err("a posteriori encryption is refused");
    assert!(matches!(err, EngineError::PlaintextStoreKeySupplied { .. }));
}

#[test]
fn engine_key_on_existing_plaintext_store_is_refused() {
    key_on_existing_plaintext_store_is_refused();
}

#[test]
fn open_key_on_existing_plaintext_store_is_refused() {
    key_on_existing_plaintext_store_is_refused();
}

fn rotation_orphan_tmp_is_ignored_on_reopen() {
    let disk = Disk::new();
    {
        let mut engine = Engine::open_encrypted(&mut on(&disk), KEY).expect("open");
        engine.put(&mut on(&disk), b"a", b"1").expect("put");
    }
    disk.restart();
    disk.write("crypto.meta.tmp", b"torn rotation garbage");
    let mut engine = Engine::open_encrypted(&mut on(&disk), KEY).expect("reopen ignores the orphan");
    assert_eq!(get(&disk, &mut engine, b"a").as_deref(), Some(&b"1"[..]));
}

#[test]
fn engine_rotation_orphan_tmp_is_ignored_on_reopen() {
    rotation_orphan_tmp_is_ignored_on_reopen();
}

#[test]
fn open_rotation_orphan_tmp_is_ignored_on_reopen() {
    rotation_orphan_tmp_is_ignored_on_reopen();
}

fn full_rotation_publishes_fresh_generation_and_keeps_live_engine_usable() {
    let disk = Disk::new();
    {
        let mut engine = Engine::open_encrypted_with_options(&mut on(&disk), KEY, small_options()).expect("open");
        engine.put(&mut on(&disk), b"kept", b"current").expect("put current");
        engine.put(&mut on(&disk), b"deleted", b"old").expect("put deleted");
        engine.flush(&mut on(&disk)).expect("flush old generation");
        engine.delete(&mut on(&disk), b"deleted").expect("delete");
        disk.write("crypto.meta.tmp", b"old wrap");
        disk.write("999.sst.tmp", b"old ciphertext");

        engine.rotate_key_full(&mut on(&disk), b"fresh key", disk.fsyncs.get()).expect("full rotate");
        assert_eq!(get(&disk, &mut engine, b"kept").as_deref(), Some(&b"current"[..]));
        assert_eq!(get(&disk, &mut engine, b"deleted"), None);
        engine.put(&mut on(&disk), b"after", b"publish").expect("write after publish");
    }
    assert!(!disk.has("crypto.meta.tmp"));
    assert!(!disk.has("999.sst.tmp"));

    disk.restart();
    let old = Engine::open_encrypted(&mut on(&disk), KEY).expect_err("old key must not open current generation");
    assert!(matches!(old, EngineError::WrongEncryptionKey { .. }));
    disk.restart();
    let mut reopened = Engine::open_encrypted(&mut on(&disk), b"fresh key").expect("new key opens");
    assert_eq!(get(&disk, &mut reopened, b"kept").as_deref(), Some(&b"current"[..]));
    assert_eq!(get(&disk, &mut reopened, b"deleted"), None);
    assert_eq!(get(&disk, &mut reopened, b"after").as_deref(), Some(&b"publish"[..]));
}

#[test]
fn engine_full_rotation_publishes_fresh_generation_and_keeps_live_engine_usable() {
    full_rotation_publishes_fresh_generation_and_keeps_live_engine_usable();
}

#[test]
fn rotate_full_rotation_publishes_fresh_generation_and_keeps_live_engine_usable() {
    full_rotation_publishes_fresh_generation_and_keeps_live_engine_usable();
}

fn full_rotation_can_switch_to_passphrase_mode() {
    let disk = Disk::new();
    {
        let mut engine = Engine::open_encrypted(&mut on(&disk), KEY).expect("open raw-key store");
        engine.put(&mut on(&disk), b"key", b"value").expect("put");
        engine
            .rotate_passphrase_full(&mut on(&disk), b"new human passphrase", disk.fsyncs.get())
            .expect("full rotate to passphrase");
    }
    disk.restart();
    let raw = Engine::open_encrypted(&mut on(&disk), b"new human passphrase").expect_err("raw-key mode must be refused");
    assert!(matches!(raw, EngineError::WrongEncryptionKey { .. }));
    disk.restart();
    let mut reopened = Engine::open_with_passphrase(&mut on(&disk), b"new human passphrase").expect("passphrase opens");
    assert_eq!(get(&disk, &mut reopened, b"key").as_deref(), Some(&b"value"[..]));
}

#[test]
fn engine_full_rotation_can_switch_to_passphrase_mode() {
    full_rotation_can_switch_to_passphrase_mode();
}

#[test]
fn rotate_full_rotation_can_switch_to_passphrase_mode() {
    full_rotation_can_switch_to_passphrase_mode();
}

fn in_place_rotation_can_switch_to_passphrase_mode() {
    let disk = Disk::new();
    {
        let mut engine = Engine::open_encrypted(&mut on(&disk), KEY).expect("open raw-key store");
        engine.put(&mut on(&disk), b"key", b"value").expect("put");
        engine.rotate_passphrase(&mut on(&disk), b"new human passphrase").expect("rotate to passphrase");
        assert_eq!(get(&disk, &mut engine, b"key").as_deref(), Some(&b"value"[..]));
    }
    disk.restart();
    let raw = Engine::open_encrypted(&mut on(&disk), b"new human passphrase").expect_err("raw-key mode must be refused");
    assert!(matches!(raw, EngineError::WrongEncryptionKey { .. }));
    disk.restart();
    let mut reopened = Engine::open_with_passphrase(&mut on(&disk), b"new human passphrase").expect("passphrase opens");
    assert_eq!(get(&disk, &mut reopened, b"key").as_deref(), Some(&b"value"[..]));
}

#[test]
fn engine_in_place_rotation_can_switch_to_passphrase_mode() {
    in_place_rotation_can_switch_to_passphrase_mode();
}

#[test]
fn rotate_in_place_rotation_can_switch_to_passphrase_mode() {
    in_place_rotation_can_switch_to_passphrase_mode();
}

fn consecutive_full_rotations_advance_and_gc_generations() {
    let disk = Disk::new();
    {
        let mut engine = Engine::open_encrypted(&mut on(&disk), KEY).expect("open");
        engine.put(&mut on(&disk), b"before", b"one").expect("put before");
        engine.rotate_key_full(&mut on(&disk), b"second key", disk.fsyncs.get()).expect("first full rotate");
        engine.put(&mut on(&disk), b"between", b"two").expect("put between");
        engine.rotate_key_full(&mut on(&disk), b"third key", disk.fsyncs.get()).expect("second full rotate");
    }
    assert!(!disk.has("gen-1"), "previous generation must be collected");
    assert!(disk.is_dir("gen-2"));
    disk.restart();
    let mut engine = Engine::open_encrypted(&mut on(&disk), b"third key").expect("open latest generation");
    assert_eq!(get(&disk, &mut engine, b"before").as_deref(), Some(&b"one"[..]));
    assert_eq!(get(&disk, &mut engine, b"between").as_deref(), Some(&b"two"[..]));
}

#[test]
fn engine_consecutive_full_rotations_advance_and_gc_generations() {
    consecutive_full_rotations_advance_and_gc_generations();
}

#[test]
fn rotate_consecutive_full_rotations_advance_and_gc_generations() {
    consecutive_full_rotations_advance_and_gc_generations();
}

fn full_rotation_preserves_monotonic_block_cache_counters() {
    let disk = Disk::new();
    let mut engine = Engine::open_encrypted_with_options(&mut on(&disk), KEY, small_options()).expect("open");
    engine.put(&mut on(&disk), b"key", b"value").expect("put");
    engine.flush(&mut on(&disk)).expect("flush");
    assert_eq!(get(&disk, &mut engine, b"key").as_deref(), Some(&b"value"[..]));
    assert_eq!(get(&disk, &mut engine, b"key").as_deref(), Some(&b"value"[..]));
    let before = stats(&disk, &engine);

    engine.rotate_key_full(&mut on(&disk), b"fresh key", disk.fsyncs.get()).expect("full rotate");
    let after = stats(&disk, &engine);
    assert!(after.block_cache_hits >= before.block_cache_hits);
    assert!(after.block_cache_misses >= before.block_cache_misses);
}

#[test]
fn engine_full_rotation_preserves_monotonic_block_cache_counters() {
    full_rotation_preserves_monotonic_block_cache_counters();
}

#[test]
fn rotate_full_rotation_preserves_monotonic_block_cache_counters() {
    full_rotation_preserves_monotonic_block_cache_counters();
}

fn rotate_key_switches_keys_without_reopen_and_preserves_data() {
    let disk = Disk::new();
    {
        let mut engine = Engine::open_encrypted_with_options(&mut on(&disk), KEY, small_options()).expect("open");
        for i in 0..10u32 {
            engine.put(&mut on(&disk), format!("k{i}").as_bytes(), format!("v{i}").as_bytes()).expect("put");
        }
        engine.rotate_key(&mut on(&disk), b"the new key").expect("rotate");
        engine.put(&mut on(&disk), b"post-rotation", b"still writable").expect("put after rotate");
        assert_eq!(get(&disk, &mut engine, b"k5").as_deref(), Some(&b"v5"[..]));
    }
    disk.restart();
    let err = Engine::open_encrypted(&mut on(&disk), KEY).expect_err("old key must no longer open");
    assert!(matches!(err, EngineError::WrongEncryptionKey { .. }));
    disk.restart();
    let mut engine = Engine::open_encrypted_with_options(&mut on(&disk), b"the new key", small_options()).expect("reopen");
    assert_eq!(get(&disk, &mut engine, b"k0").as_deref(), Some(&b"v0"[..]));
    assert_eq!(get(&disk, &mut engine, b"k9").as_deref(), Some(&b"v9"[..]));
    assert_eq!(get(&disk, &mut engine, b"post-rotation").as_deref(), Some(&b"still writable"[..]));
}

#[test]
fn engine_rotate_key_switches_keys_without_reopen_and_preserves_data() {
    rotate_key_switches_keys_without_reopen_and_preserves_data();
}

#[test]
fn rotate_rotate_key_switches_keys_without_reopen_and_preserves_data() {
    rotate_key_switches_keys_without_reopen_and_preserves_data();
}

fn rotate_key_on_plaintext_store_is_not_encrypted_error() {
    let disk = Disk::new();
    let mut engine = Engine::open(&mut on(&disk)).expect("open plaintext");
    assert!(!engine.is_encrypted());
    let err = engine.rotate_key(&mut on(&disk), b"whatever").expect_err("nothing to rotate");
    assert!(matches!(err, EngineError::NotEncrypted { .. }));
}

#[test]
fn engine_rotate_key_on_plaintext_store_is_not_encrypted_error() {
    rotate_key_on_plaintext_store_is_not_encrypted_error();
}

#[test]
fn rotate_rotate_key_on_plaintext_store_is_not_encrypted_error() {
    rotate_key_on_plaintext_store_is_not_encrypted_error();
}

fn compact_now_merges_below_threshold_and_purges_tombstones() {
    let disk = Disk::new();
    let mut engine = Engine::open_encrypted_with_options(&mut on(&disk), KEY, small_options()).expect("open");
    for i in 0..8u32 {
        engine
            .put(&mut on(&disk), format!("key-{i:03}").as_bytes(), format!("value-{i}").as_bytes())
            .expect("put");
    }
    engine.delete(&mut on(&disk), b"key-002").expect("delete");
    engine.delete(&mut on(&disk), b"key-005").expect("delete");
    engine.put(&mut on(&disk), b"tail", b"unflushed").expect("put tail");

    engine.compact_now(&mut on(&disk)).expect("compact");
    let told = stats(&disk, &engine);
    assert_eq!(told.sst_count, 1, "everything folds into one SST");
    assert_eq!(told.tombstone_count, 0, "a full merge drops every tombstone");
    assert_eq!(told.wal_bytes, 0, "flushed before compacting");

    drop(engine);
    disk.restart();
    let mut engine = Engine::open_encrypted_with_options(&mut on(&disk), KEY, small_options()).expect("reopen");
    assert_eq!(get(&disk, &mut engine, b"key-000").as_deref(), Some(&b"value-0"[..]));
    assert_eq!(get(&disk, &mut engine, b"key-002"), None);
    assert_eq!(get(&disk, &mut engine, b"key-005"), None);
    assert_eq!(get(&disk, &mut engine, b"tail").as_deref(), Some(&b"unflushed"[..]));
}

#[test]
fn engine_compact_now_merges_below_threshold_and_purges_tombstones() {
    compact_now_merges_below_threshold_and_purges_tombstones();
}

#[test]
fn compact_compact_now_merges_below_threshold_and_purges_tombstones() {
    compact_now_merges_below_threshold_and_purges_tombstones();
}

fn compact_now_on_an_empty_store_is_a_noop() {
    let disk = Disk::new();
    let mut engine = Engine::open(&mut on(&disk)).expect("open");
    engine.compact_now(&mut on(&disk)).expect("compact empty");
    let told = stats(&disk, &engine);
    assert_eq!(told.sst_count, 0);
    assert_eq!(told.compaction_count, 0, "nothing to compact, nothing counted");
}

#[test]
fn engine_compact_now_on_an_empty_store_is_a_noop() {
    compact_now_on_an_empty_store_is_a_noop();
}

#[test]
fn compact_compact_now_on_an_empty_store_is_a_noop() {
    compact_now_on_an_empty_store_is_a_noop();
}

fn forged_version_edit_with_unknown_deleted_id_is_refused_and_publishes_nothing() {
    let disk = Disk::new();
    let mut engine = Engine::open(&mut on(&disk)).expect("open");
    engine.put(&mut on(&disk), b"a", b"1").expect("put");
    engine.flush(&mut on(&disk)).expect("flush");

    let manifest_before = disk.read("manifest.meta").expect("read manifest before");
    let ids_before = engine.current.ids();
    let generation_before = engine.current.manifest_generation;

    let err = engine
        .apply_version_edit(&mut on(&disk), VersionEdit { added: Vec::new(), deleted: vec![999] })
        .expect_err("an edit deleting an id absent from the current version must be refused");
    assert!(matches!(err, EngineError::VersionEditMissingInput { id: 999 }));

    assert_eq!(disk.read("manifest.meta").expect("read manifest after"), manifest_before);
    assert_eq!(engine.current.manifest_generation, generation_before);
    assert_eq!(engine.current.ids(), ids_before);
    assert_eq!(get(&disk, &mut engine, b"a").as_deref(), Some(&b"1"[..]));
    engine.put(&mut on(&disk), b"b", b"2").expect("the engine stays fully usable after a refused edit");
    assert_eq!(get(&disk, &mut engine, b"b").as_deref(), Some(&b"2"[..]));
}

// The audit.

fn audit_options() -> EngineOptions {
    EngineOptions {
        memtable_flush_threshold: 1000,
        compaction_sst_threshold: 100,
        block_size: 512,
        ..EngineOptions::default()
    }
}

fn build_store(encrypted: bool) -> Disk {
    let disk = Disk::new();
    let mut engine = if encrypted {
        Engine::open_encrypted_with_options(&mut on(&disk), KEY, audit_options()).expect("open")
    } else {
        Engine::open_with_options(&mut on(&disk), audit_options()).expect("open")
    };
    for i in 0..80u32 {
        engine
            .put(&mut on(&disk), format!("key-{i:04}").as_bytes(), format!("value-{i}").repeat(4).as_bytes())
            .expect("put");
    }
    engine.delete(&mut on(&disk), b"key-0007").expect("delete");
    engine.delete(&mut on(&disk), b"key-0013").expect("delete");
    engine.close(&mut on(&disk)).expect("close");
    disk.restart();
    disk
}

fn the_sst(disk: &Disk) -> String {
    let files = disk.files.borrow();
    files.keys().find(|p| p.ends_with(".sst")).expect("store must hold at least one SST").clone()
}

#[test]
fn engine_forged_version_edit_with_unknown_deleted_id_is_refused_and_publishes_nothing() {
    forged_version_edit_with_unknown_deleted_id_is_refused_and_publishes_nothing();
}

#[test]
fn compact_forged_version_edit_with_unknown_deleted_id_is_refused_and_publishes_nothing() {
    forged_version_edit_with_unknown_deleted_id_is_refused_and_publishes_nothing();
}

fn healthy_store_verifies_healthy_in_both_modes_clear_and_encrypted() {
    for encrypted in [false, true] {
        let disk = build_store(encrypted);
        let key = if encrypted { Some(KEY) } else { None };
        let quick = audit(&disk, key, VerifyMode::Quick).expect("verify");
        assert!(quick.healthy, "quick errors: {:?}", quick.errors);
        assert!(quick.warnings.is_empty(), "quick warnings: {:?}", quick.warnings);
        assert!(quick.files_checked >= 2);
        assert_eq!(quick.blocks_checked, 0, "Quick must not decode data blocks");

        let full = audit(&disk, key, VerifyMode::FullPhysical).expect("verify");
        assert!(full.healthy, "full errors: {:?}", full.errors);
        assert!(full.blocks_checked > 1, "test store must span several blocks");
        assert_eq!(full.records_checked, 80);
    }
}

#[test]
fn verify_healthy_store_verifies_healthy_in_both_modes_clear_and_encrypted() {
    healthy_store_verifies_healthy_in_both_modes_clear_and_encrypted();
}

#[test]
fn checks_healthy_store_verifies_healthy_in_both_modes_clear_and_encrypted() {
    healthy_store_verifies_healthy_in_both_modes_clear_and_encrypted();
}

#[test]
fn full_rotation_verifies_only_the_published_generation() {
    let disk = Disk::new();
    {
        let mut engine = Engine::open_encrypted_with_options(&mut on(&disk), KEY, audit_options()).expect("open encrypted");
        engine.put(&mut on(&disk), b"kept", b"current").expect("put");
        engine.flush(&mut on(&disk)).expect("flush");
        engine.rotate_key_full(&mut on(&disk), b"fresh key", disk.fsyncs.get()).expect("full rotate");
    }
    disk.restart();
    on(&disk).create_dir("gen-999").expect("create sibling");
    disk.write("gen-999/corrupt.sst", b"not an sst");

    let report = audit(&disk, Some(b"fresh key"), VerifyMode::FullLogical).expect("verify");
    assert!(report.healthy, "errors: {:?}", report.errors);
    assert!(report.warnings.is_empty(), "warnings: {:?}", report.warnings);
    assert!(report.records_checked > 0, "the active generation must be audited");
}

#[test]
fn full_passphrase_rotation_verifies_in_passphrase_mode() {
    let disk = Disk::new();
    {
        let mut engine = Engine::open_encrypted(&mut on(&disk), KEY).expect("open encrypted");
        engine.put(&mut on(&disk), b"key", b"value").expect("put");
        engine
            .rotate_passphrase_full(&mut on(&disk), b"fresh passphrase", disk.fsyncs.get())
            .expect("full passphrase rotate");
    }
    disk.restart();
    let report =
        verify_store_with_passphrase(&mut on(&disk), &fts_prefixes(), Some(b"fresh passphrase"), VerifyMode::FullLogical)
            .expect("verify passphrase generation");
    assert!(report.healthy, "errors: {:?}", report.errors);
    assert!(report.warnings.is_empty(), "warnings: {:?}", report.warnings);
}

#[test]
fn published_generation_without_crypto_meta_is_reported_as_corrupt() {
    let disk = Disk::new();
    {
        let mut engine = Engine::open_encrypted(&mut on(&disk), KEY).expect("open encrypted");
        engine.rotate_key_full(&mut on(&disk), b"fresh key", disk.fsyncs.get()).expect("full rotate");
    }
    disk.restart();
    disk.remove("gen-1/crypto.meta");
    let report = audit(&disk, Some(b"fresh key"), VerifyMode::Quick).expect("verify");
    assert!(!report.healthy);
    assert!(has_error(&report, IssueKind::CryptoMetaCorrupt));
}

#[test]
fn corrupt_generation_pointer_is_reported_without_auditing_root_artifacts() {
    let disk = build_store(false);
    disk.write("generation.meta", b"not a generation pointer");
    let report = audit(&disk, None, VerifyMode::FullLogical).expect("verify");
    assert!(!report.healthy);
    assert_eq!(report.errors.len(), 1);
    assert_eq!(report.errors[0].kind, IssueKind::GenerationMetaCorrupt);
    assert_eq!(report.records_checked, 0, "pointer failure must stop before root artifacts");
}

#[test]
fn pointer_to_missing_generation_is_reported_without_fallback_to_root() {
    let disk = build_store(false);
    disk.write("generation.meta", &generation_pointer(7));
    let report = audit(&disk, None, VerifyMode::FullLogical).expect("verify");
    assert!(!report.healthy);
    assert_eq!(report.errors.len(), 1);
    assert_eq!(report.errors[0].kind, IssueKind::GenerationMetaCorrupt);
    assert_eq!(report.records_checked, 0, "must not fall back to root generation zero");
}

fn verify_never_modifies_the_store_even_with_a_torn_wal_tail() {
    let disk = build_store(false);
    {
        let mut engine = Engine::open_with_options(&mut on(&disk), audit_options()).expect("reopen");
        engine.put(&mut on(&disk), b"unflushed", b"tail").expect("put");
    }
    disk.restart();
    let mut wal_bytes = disk.read("wal.log").expect("read wal");
    wal_bytes.extend_from_slice(&[0xAA, 0xBB, 0xCC]);
    disk.write("wal.log", &wal_bytes);

    let before = disk.files.borrow().clone();
    for mode in [VerifyMode::Quick, VerifyMode::FullPhysical] {
        let report = audit(&disk, None, mode).expect("verify");
        assert!(report.healthy, "torn tail must not be an error: {:?}", report.errors);
        assert!(has_warning(&report, IssueKind::WalTornTail), "warnings: {:?}", report.warnings);
        assert!(report.records_checked >= 1, "the complete WAL record is counted");
    }
    assert_eq!(*disk.files.borrow(), before, "verify must not modify a single byte");

    let mut engine = Engine::open_with_options(&mut on(&disk), audit_options()).expect("open after verify");
    assert_eq!(get(&disk, &mut engine, b"unflushed").as_deref(), Some(&b"tail"[..]));
}

#[test]
fn verify_verify_never_modifies_the_store_even_with_a_torn_wal_tail() {
    verify_never_modifies_the_store_even_with_a_torn_wal_tail();
}

#[test]
fn checks_verify_never_modifies_the_store_even_with_a_torn_wal_tail() {
    verify_never_modifies_the_store_even_with_a_torn_wal_tail();
}

fn data_block_corruption_is_invisible_in_quick_and_diagnosed_in_full() {
    let disk = build_store(false);
    disk.flip(&the_sst(&disk), HEADER_LEN + 4);
    let quick = audit(&disk, None, VerifyMode::Quick).expect("verify");
    assert!(quick.healthy, "Quick reads metadata only and cannot see payload corruption");

    let full = audit(&disk, None, VerifyMode::FullPhysical).expect("verify");
    assert!(!full.healthy);
    assert!(
        has_error(&full, IssueKind::SstDataBlockCorrupt) || has_error(&full, IssueKind::SstBlockIndexCorrupt),
        "unexpected diagnosis: {:?}",
        full.errors
    );
    assert!(full.blocks_checked > 0);
}

#[test]
fn verify_data_block_corruption_is_invisible_in_quick_and_diagnosed_in_full() {
    data_block_corruption_is_invisible_in_quick_and_diagnosed_in_full();
}

#[test]
fn checks_data_block_corruption_is_invisible_in_quick_and_diagnosed_in_full() {
    data_block_corruption_is_invisible_in_quick_and_diagnosed_in_full();
}

fn encrypted_data_block_tampering_is_a_sealed_section_diagnosis() {
    let disk = build_store(true);
    disk.flip(&the_sst(&disk), HEADER_LEN + 40);
    let quick = audit(&disk, Some(KEY), VerifyMode::Quick).expect("verify");
    assert!(quick.healthy, "Quick cannot see sealed-payload corruption either");

    let full = audit(&disk, Some(KEY), VerifyMode::FullPhysical).expect("verify");
    assert!(!full.healthy);
    assert!(has_error(&full, IssueKind::SstSealedSectionCorrupt), "unexpected diagnosis: {:?}", full.errors);
}

#[test]
fn verify_encrypted_data_block_tampering_is_a_sealed_section_diagnosis() {
    encrypted_data_block_tampering_is_a_sealed_section_diagnosis();
}

#[test]
fn checks_encrypted_data_block_tampering_is_a_sealed_section_diagnosis() {
    encrypted_data_block_tampering_is_a_sealed_section_diagnosis();
}

fn truncated_sst_is_a_footer_diagnosis_already_in_quick() {
    let disk = build_store(false);
    let sst = the_sst(&disk);
    let raw = disk.read(&sst).expect("read sst");
    disk.write(&sst, &raw[..raw.len() - 10]);
    let report = audit(&disk, None, VerifyMode::Quick).expect("verify");
    assert!(!report.healthy);
    assert!(
        has_error(&report, IssueKind::SstFooterCorrupt) || has_error(&report, IssueKind::Io),
        "unexpected diagnosis: {:?}",
        report.errors
    );
}

#[test]
fn verify_truncated_sst_is_a_footer_diagnosis_already_in_quick() {
    truncated_sst_is_a_footer_diagnosis_already_in_quick();
}

#[test]
fn checks_truncated_sst_is_a_footer_diagnosis_already_in_quick() {
    truncated_sst_is_a_footer_diagnosis_already_in_quick();
}

fn tampered_block_index_is_diagnosed_in_quick() {
    let disk = build_store(false);
    let sst = the_sst(&disk);
    let footer = footer_of(&disk, &sst);
    disk.flip(&sst, footer.index_offset as usize + 8);
    let report = audit(&disk, None, VerifyMode::Quick).expect("verify");
    assert!(!report.healthy);
    assert!(has_error(&report, IssueKind::SstBlockIndexCorrupt), "unexpected diagnosis: {:?}", report.errors);
}

#[test]
fn verify_tampered_block_index_is_diagnosed_in_quick() {
    tampered_block_index_is_diagnosed_in_quick();
}

#[test]
fn checks_tampered_block_index_is_diagnosed_in_quick() {
    tampered_block_index_is_diagnosed_in_quick();
}

fn corrupt_complete_wal_record_is_an_error_not_a_torn_tail() {
    let disk = Disk::new();
    {
        let mut engine = Engine::open_with_options(&mut on(&disk), audit_options()).expect("open");
        engine.put(&mut on(&disk), b"a", b"1").expect("put");
        engine.put(&mut on(&disk), b"b", b"2").expect("put");
    }
    disk.restart();
    disk.flip("wal.log", 6);
    let report = audit(&disk, None, VerifyMode::Quick).expect("verify");
    assert!(!report.healthy);
    assert!(has_error(&report, IssueKind::WalCorrupt), "unexpected diagnosis: {:?}", report.errors);
}

#[test]
fn verify_corrupt_complete_wal_record_is_an_error_not_a_torn_tail() {
    corrupt_complete_wal_record_is_an_error_not_a_torn_tail();
}

#[test]
fn checks_corrupt_complete_wal_record_is_an_error_not_a_torn_tail() {
    corrupt_complete_wal_record_is_an_error_not_a_torn_tail();
}

fn tmp_orphan_is_a_warning_and_unknown_file_is_a_warning() {
    let disk = build_store(false);
    disk.write("00000000000000000009.sst.tmp", b"garbage");
    disk.write("notes.txt", b"not ours");
    let report = audit(&disk, None, VerifyMode::FullPhysical).expect("verify");
    assert!(report.healthy, "warnings must not flip healthy: {:?}", report.errors);
    assert!(has_warning(&report, IssueKind::OrphanTmpFile));
    assert!(has_warning(&report, IssueKind::UnknownFile));
}

#[test]
fn verify_tmp_orphan_is_a_warning_and_unknown_file_is_a_warning() {
    tmp_orphan_is_a_warning_and_unknown_file_is_a_warning();
}

#[test]
fn checks_tmp_orphan_is_a_warning_and_unknown_file_is_a_warning() {
    tmp_orphan_is_a_warning_and_unknown_file_is_a_warning();
}

#[test]
fn a_store_without_store_meta_is_unsupported() {
    let disk = Disk::new();
    disk.write("wal.log", b"old generation bytes");
    let report = audit(&disk, None, VerifyMode::Quick).expect("verify");
    assert!(!report.healthy);
    assert_eq!(report.errors.len(), 1);
    assert_eq!(report.errors[0].kind, IssueKind::StoreFormatUnsupported);
}

#[test]
fn generation_directory_without_store_meta_is_not_fresh() {
    let disk = Disk::new();
    on(&disk).create_dir("gen-1").expect("create orphan generation");
    let report = audit(&disk, None, VerifyMode::Quick).expect("verify");
    assert!(!report.healthy);
    assert_eq!(report.errors.len(), 1);
    assert_eq!(report.errors[0].kind, IssueKind::StoreFormatUnsupported);
}

#[test]
fn verification_refuses_to_race_a_live_writer() {
    let disk = Disk::new();
    let _engine = Engine::open_encrypted(&mut on(&disk), KEY).expect("open writer");
    let err = audit(&disk, Some(KEY), VerifyMode::Quick).expect_err("writer lock must win");
    assert!(matches!(err, EngineError::StoreLocked { .. }));
}

fn empty_directory_is_trivially_healthy() {
    let disk = Disk::new();
    let report = audit(&disk, None, VerifyMode::FullPhysical).expect("verify");
    assert!(report.healthy);
    assert_eq!(report.files_checked, 0);
}

#[test]
fn verify_empty_directory_is_trivially_healthy() {
    empty_directory_is_trivially_healthy();
}

#[test]
fn checks_empty_directory_is_trivially_healthy() {
    empty_directory_is_trivially_healthy();
}

fn missing_directory_is_a_call_error() {
    let disk = Disk::new();
    disk.gone.set(true);
    let err = audit(&disk, None, VerifyMode::Quick).expect_err("must fail");
    assert!(matches!(err, EngineError::Io { .. }));
}

#[test]
fn verify_missing_directory_is_a_call_error() {
    missing_directory_is_a_call_error();
}

#[test]
fn checks_missing_directory_is_a_call_error() {
    missing_directory_is_a_call_error();
}

fn key_mode_mismatches_are_typed_call_errors_not_report_entries() {
    let encrypted = build_store(true);
    let err = audit(&encrypted, None, VerifyMode::Quick).expect_err("key required");
    assert!(matches!(err, EngineError::MissingEncryptionKey { .. }));
    let err = audit(&encrypted, Some(b"not the key"), VerifyMode::Quick).expect_err("wrong key");
    assert!(matches!(err, EngineError::WrongEncryptionKey { .. }));

    let plaintext = build_store(false);
    let err = audit(&plaintext, Some(KEY), VerifyMode::Quick).expect_err("no key expected");
    assert!(matches!(err, EngineError::PlaintextStoreKeySupplied { .. }));
}

// The logical audit.

const DIM: usize = 4;

/// Memories of two agents, one of them forgotten, and a graph; all flushed but
/// for one memory that is in the log alone.
fn build_composed_store() -> Disk {
    let disk = Disk::new();
    let mut engine = Engine::open_with_options(&mut on(&disk), audit_options()).expect("open");
    for (i, content) in ["le chat mange la souris", "le chien dort", "la souris danse"].iter().enumerate() {
        remember(&disk, &mut engine, "agent-a", &format!("m{i}"), content, DIM);
    }
    remember(&disk, &mut engine, "agent-b", "m0", "le hibou observe", DIM);
    forget(&disk, &mut engine, "agent-a", "m2");
    for id in ["alice", "acme"] {
        upsert_entity(&disk, &mut engine, "agent-a", id);
    }
    upsert_edge(&disk, &mut engine, "agent-a", "alice", "employeur", "acme");
    engine.flush(&mut on(&disk)).expect("flush");
    remember(&disk, &mut engine, "agent-a", "wal-tail", "reste dans le wal", DIM);
    drop(engine);
    disk.restart();
    disk
}

fn full_logical(disk: &Disk) -> VerifyReport {
    audit(disk, None, VerifyMode::FullLogical).expect("verify")
}

/// Opens a composed store, changes it, and closes it.
fn change(disk: &Disk, with: impl FnOnce(&mut Engine)) {
    let mut engine = Engine::open_with_options(&mut on(disk), audit_options()).expect("open");
    with(&mut engine);
    engine.close(&mut on(disk)).expect("close");
    disk.restart();
}

#[test]
fn verify_key_mode_mismatches_are_typed_call_errors_not_report_entries() {
    key_mode_mismatches_are_typed_call_errors_not_report_entries();
}

#[test]
fn checks_key_mode_mismatches_are_typed_call_errors_not_report_entries() {
    key_mode_mismatches_are_typed_call_errors_not_report_entries();
}

fn composed_store_with_tombstones_and_wal_tail_is_logically_healthy() {
    let disk = build_composed_store();
    let report = full_logical(&disk);
    assert!(report.healthy, "errors: {:?}", report.errors);
    assert!(report.warnings.is_empty(), "warnings: {:?}", report.warnings);
    assert!(report.blocks_checked > 0);
}

#[test]
fn verify_logical_composed_store_with_tombstones_and_wal_tail_is_logically_healthy() {
    composed_store_with_tombstones_and_wal_tail_is_logically_healthy();
}

#[test]
fn mod_composed_store_with_tombstones_and_wal_tail_is_logically_healthy() {
    composed_store_with_tombstones_and_wal_tail_is_logically_healthy();
}

fn logical_pass_is_skipped_with_a_warning_when_physical_errors_exist() {
    let disk = build_composed_store();
    disk.flip(&the_sst(&disk), HEADER_LEN + 4);
    let report = full_logical(&disk);
    assert!(!report.healthy);
    assert!(has_warning(&report, IssueKind::LogicalChecksSkipped), "warnings: {:?}", report.warnings);
    assert!(
        !has_error(&report, IssueKind::MemoryLinkBroken) && !has_error(&report, IssueKind::FtsLinkBroken),
        "errors: {:?}",
        report.errors
    );
}

#[test]
fn verify_logical_logical_pass_is_skipped_with_a_warning_when_physical_errors_exist() {
    logical_pass_is_skipped_with_a_warning_when_physical_errors_exist();
}

#[test]
fn mod_logical_pass_is_skipped_with_a_warning_when_physical_errors_exist() {
    logical_pass_is_skipped_with_a_warning_when_physical_errors_exist();
}

fn missing_vecmap_entry_is_a_broken_memory_link() {
    let disk = build_composed_store();
    change(&disk, |engine| {
        let vec_id = vec_id_of(&disk, engine, "agent-a", "m0");
        engine.delete(&mut on(&disk), memory_index::vecmap_key(vec_id).as_bytes()).expect("delete vecmap");
    });
    let report = full_logical(&disk);
    assert!(!report.healthy);
    assert!(has_error(&report, IssueKind::MemoryLinkBroken), "errors: {:?}", report.errors);
}

#[test]
fn verify_logical_missing_vecmap_entry_is_a_broken_memory_link() {
    missing_vecmap_entry_is_a_broken_memory_link();
}

#[test]
fn memory_missing_vecmap_entry_is_a_broken_memory_link() {
    missing_vecmap_entry_is_a_broken_memory_link();
}

fn orphan_vecmap_entry_is_a_broken_memory_link() {
    let disk = build_composed_store();
    change(&disk, |engine| {
        let key = memory_index::record_key("agent-a", "m0").expect("record key");
        engine.delete(&mut on(&disk), key.as_bytes()).expect("delete record");
    });
    let report = full_logical(&disk);
    assert!(!report.healthy);
    assert!(has_error(&report, IssueKind::MemoryLinkBroken), "errors: {:?}", report.errors);
}

#[test]
fn verify_logical_orphan_vecmap_entry_is_a_broken_memory_link() {
    orphan_vecmap_entry_is_a_broken_memory_link();
}

#[test]
fn memory_orphan_vecmap_entry_is_a_broken_memory_link() {
    orphan_vecmap_entry_is_a_broken_memory_link();
}

fn stale_allocator_is_an_error_not_a_healable_state() {
    let disk = build_composed_store();
    change(&disk, |engine| {
        let stale = disk.encode_memory_meta(0).expect("encode");
        engine.put(&mut on(&disk), &memory_index::META_KEY, &stale).expect("put stale meta");
    });
    let report = full_logical(&disk);
    assert!(!report.healthy);
    assert!(has_error(&report, IssueKind::AllocatorStale), "errors: {:?}", report.errors);
}

#[test]
fn verify_logical_stale_allocator_is_an_error_not_a_healable_state() {
    stale_allocator_is_an_error_not_a_healable_state();
}

#[test]
fn memory_stale_allocator_is_an_error_not_a_healable_state() {
    stale_allocator_is_an_error_not_a_healable_state();
}

fn undecodable_idx_value_is_reported_with_its_key() {
    let disk = build_composed_store();
    change(&disk, |engine| {
        engine.put(&mut on(&disk), vector_index::node_key(0).as_bytes(), b"not a node block").expect("put garbage node");
    });
    let report = full_logical(&disk);
    assert!(!report.healthy);
    assert!(has_error(&report, IssueKind::IdxValueCorrupt), "errors: {:?}", report.errors);
}

#[test]
fn verify_logical_undecodable_idx_value_is_reported_with_its_key() {
    undecodable_idx_value_is_reported_with_its_key();
}

#[test]
fn parse_undecodable_idx_value_is_reported_with_its_key() {
    undecodable_idx_value_is_reported_with_its_key();
}

fn malformed_key_in_reserved_keyspace_is_an_error() {
    let disk = build_composed_store();
    change(&disk, |engine| {
        engine.put(&mut on(&disk), b"idx/memory/rec/junk", b"x").expect("put foreign key");
    });
    let report = full_logical(&disk);
    assert!(!report.healthy);
    assert!(has_error(&report, IssueKind::IdxKeyMalformed), "errors: {:?}", report.errors);
}

#[test]
fn verify_logical_malformed_key_in_reserved_keyspace_is_an_error() {
    malformed_key_in_reserved_keyspace_is_an_error();
}

#[test]
fn parse_malformed_key_in_reserved_keyspace_is_an_error() {
    malformed_key_in_reserved_keyspace_is_an_error();
}

fn missing_docterms_makes_postings_orphans() {
    let disk = build_composed_store();
    change(&disk, |engine| {
        let vec_id = vec_id_of(&disk, engine, "agent-a", "m0");
        engine.delete(&mut on(&disk), &docterms_key("agent-a", vec_id)).expect("delete docterms");
    });
    let report = full_logical(&disk);
    assert!(!report.healthy);
    assert!(has_error(&report, IssueKind::FtsLinkBroken), "errors: {:?}", report.errors);
    assert!(has_error(&report, IssueKind::FtsStatsInconsistent), "errors: {:?}", report.errors);
}

#[test]
fn verify_logical_missing_docterms_makes_postings_orphans() {
    missing_docterms_makes_postings_orphans();
}

#[test]
fn fts_missing_docterms_makes_postings_orphans() {
    missing_docterms_makes_postings_orphans();
}

fn intact_but_wrong_bm25_stats_are_an_error() {
    let disk = build_composed_store();
    change(&disk, |engine| {
        let lying = encode_stats(FtsStats { doc_count: 999, total_terms: 1 });
        engine.put(&mut on(&disk), &fts_meta_key("agent-a"), &lying).expect("put lying stats");
    });
    let report = full_logical(&disk);
    assert!(!report.healthy);
    assert!(has_error(&report, IssueKind::FtsStatsInconsistent), "errors: {:?}", report.errors);
}

#[test]
fn verify_logical_intact_but_wrong_bm25_stats_are_an_error() {
    intact_but_wrong_bm25_stats_are_an_error();
}

#[test]
fn fts_intact_but_wrong_bm25_stats_are_an_error() {
    intact_but_wrong_bm25_stats_are_an_error();
}

fn dangling_graph_edge_is_a_warning_not_an_error() {
    let disk = build_composed_store();
    change(&disk, |engine| upsert_edge(&disk, engine, "agent-a", "alice", "connait", "fantome"));
    let report = full_logical(&disk);
    assert!(report.healthy, "a dangling edge is tolerated: {:?}", report.errors);
    assert!(has_warning(&report, IssueKind::GraphEdgeDangling), "warnings: {:?}", report.warnings);
}

#[test]
fn verify_logical_dangling_graph_edge_is_a_warning_not_an_error() {
    dangling_graph_edge_is_a_warning_not_an_error();
}

#[test]
fn graph_dangling_graph_edge_is_a_warning_not_an_error() {
    dangling_graph_edge_is_a_warning_not_an_error();
}

fn cross_agent_fts_document_is_an_isolation_breach() {
    let disk = build_composed_store();
    change(&disk, |engine| {
        let vec_id = vec_id_of(&disk, engine, "agent-a", "m0");
        let doc = encode_docterms(&[("vole".to_string(), 1)]);
        engine.put(&mut on(&disk), &docterms_key("agent-b", vec_id), &doc).expect("put forged docterms");
        engine.put(&mut on(&disk), &postings_key("agent-b", "vole", vec_id), &encode_posting(1)).expect("put forged posting");
    });
    let report = full_logical(&disk);
    assert!(!report.healthy);
    assert!(has_error(&report, IssueKind::AgentIsolationBreach), "errors: {:?}", report.errors);
}

#[test]
fn verify_logical_cross_agent_fts_document_is_an_isolation_breach() {
    cross_agent_fts_document_is_an_isolation_breach();
}

#[test]
fn fts_cross_agent_fts_document_is_an_isolation_breach() {
    cross_agent_fts_document_is_an_isolation_breach();
}

fn standalone_vector_index_without_memory_keyspace_is_healthy() {
    let disk = Disk::new();
    change(&disk, |engine| {
        for i in 0..5u64 {
            let neighbors = (0..i).collect();
            let batch = stage_node(&disk, engine, i, VectorNode { dim: DIM, neighbors, deleted: false });
            engine.apply_batch(&mut on(&disk), &batch).expect("insert");
        }
    });
    let report = full_logical(&disk);
    assert!(report.healthy, "live nodes without vecmap are legitimate here: {:?}", report.errors);
}

// Repair.

#[test]
fn verify_logical_standalone_vector_index_without_memory_keyspace_is_healthy() {
    standalone_vector_index_without_memory_keyspace_is_healthy();
}

#[test]
fn vector_standalone_vector_index_without_memory_keyspace_is_healthy() {
    standalone_vector_index_without_memory_keyspace_is_healthy();
}

#[test]
fn dry_plan_is_read_only_and_proposes_derived_repairs() {
    let disk = Disk::new();
    let mut engine = Engine::open(&mut on(&disk)).expect("open");
    remember(&disk, &mut engine, "a", "one", "hello world", 2);
    engine.delete(&mut on(&disk), &fts_meta_key("a")).expect("delete stats");
    disk.restart();
    let before = disk.files.borrow().len();
    let report = full_logical(&disk);
    let plan = plan_repair(&report);
    assert!(plan.actions.contains(&RepairAction::RebuildFts));
    assert_eq!(disk.files.borrow().len(), before);
}

#[test]
fn rebuild_keeps_primary_records_and_restores_logical_health() {
    let disk = Disk::new();
    let mut engine = Engine::open(&mut on(&disk)).expect("open");
    remember(&disk, &mut engine, "a", "one", "hello world", 2);
    let primary_before = engine.scan_prefix(&disk, &memory_index::RECORD_PREFIX).expect("records");
    engine.delete(&mut on(&disk), memory_index::vecmap_key(0).as_bytes()).expect("delete map");
    engine.delete(&mut on(&disk), &fts_meta_key("a")).expect("delete stats");
    let rebuilt = rebuild_indexes(&mut on(&disk), &disk, &fts_prefixes(), &mut engine).expect("rebuild");
    assert_eq!(rebuilt.memory_mappings_rebuilt, 1);
    assert!(rebuilt.vector_graph_rebuilt);
    assert!(rebuilt.reembedding_required.is_empty());
    assert_eq!(engine.scan_prefix(&disk, &memory_index::RECORD_PREFIX).expect("records"), primary_before);
    drop(engine);
    disk.restart();
    let report = full_logical(&disk);
    assert!(report.healthy, "{:#?}", report.errors);
}

// What every operation keeps.

#[test]
fn a_refused_log_changes_nothing() {
    let disk = Disk::new();
    let mut engine = Engine::open(&mut on(&disk)).expect("open");
    engine.put(&mut on(&disk), b"a", b"1").expect("put");
    *disk.refused.borrow_mut() = Some("wal.log".to_string());
    assert!(matches!(engine.put(&mut on(&disk), b"a", b"2"), Err(EngineError::Io { .. })));
    assert!(matches!(engine.delete(&mut on(&disk), b"a"), Err(EngineError::Io { .. })));
    let mut batch = Batch::new();
    batch.put(b"b", b"3");
    assert!(engine.apply_batch(&mut on(&disk), &batch).is_err());
    *disk.refused.borrow_mut() = None;
    assert_eq!(get(&disk, &mut engine, b"a").as_deref(), Some(&b"1"[..]));
    assert_eq!(get(&disk, &mut engine, b"b"), None);
    assert_eq!(stats(&disk, &engine).wal_records, 1);
}

#[test]
fn an_empty_batch_does_not_touch_the_log() {
    let disk = Disk::new();
    let mut engine = Engine::open(&mut on(&disk)).expect("open");
    engine.apply_batch(&mut on(&disk), &Batch::new()).expect("apply");
    assert_eq!(disk.log_len(""), 0);
    assert_eq!(stats(&disk, &engine).wal_records, 0);
}

#[test]
fn a_flush_keeps_what_was_written() {
    let disk = Disk::new();
    let mut engine = Engine::open(&mut on(&disk)).expect("open");
    engine.put(&mut on(&disk), b"a", b"1").expect("put");
    engine.put(&mut on(&disk), b"b", b"2").expect("put");
    engine.flush(&mut on(&disk)).expect("flush");
    engine.put(&mut on(&disk), b"b", b"3").expect("put");
    engine.delete(&mut on(&disk), b"a").expect("delete");
    engine.flush(&mut on(&disk)).expect("flush");
    let told = stats(&disk, &engine);
    assert_eq!(told.sst_count, 2);
    assert_eq!(told.flush_count, 2);
    assert_eq!(told.memtable_bytes, 0);
    assert_eq!(told.tombstone_count, 1);
    assert_eq!(told.manifest_generation, 2);
    assert_eq!(get(&disk, &mut engine, b"a"), None);
    assert_eq!(get(&disk, &mut engine, b"b").as_deref(), Some(&b"3"[..]));
    assert_eq!(disk.log_len(""), 0);
}

#[test]
fn a_flush_that_cannot_write_keeps_the_memtable() {
    let disk = Disk::new();
    let mut engine = Engine::open(&mut on(&disk)).expect("open");
    engine.put(&mut on(&disk), b"a", b"1").expect("put");
    *disk.refused.borrow_mut() = Some(".sst".to_string());
    assert!(engine.flush(&mut on(&disk)).is_err());
    *disk.refused.borrow_mut() = Some("manifest".to_string());
    assert!(engine.flush(&mut on(&disk)).is_err());
    *disk.refused.borrow_mut() = None;
    assert_eq!(engine.current.ssts.len(), 0);
    assert_eq!(get(&disk, &mut engine, b"a").as_deref(), Some(&b"1"[..]));
    assert!(disk.log_len("") > 0);
    engine.flush(&mut on(&disk)).expect("flush");
    assert_eq!(engine.current.ssts.len(), 1);
    assert_eq!(get(&disk, &mut engine, b"a").as_deref(), Some(&b"1"[..]));
}

#[test]
fn a_flush_of_nothing_is_nothing() {
    let disk = Disk::new();
    let mut engine = Engine::open(&mut on(&disk)).expect("open");
    engine.flush(&mut on(&disk)).expect("flush");
    assert_eq!(stats(&disk, &engine).flush_count, 0);
    engine.close(&mut on(&disk)).expect("close");
}

#[test]
fn the_threshold_flushes_and_compacts() {
    let disk = Disk::new();
    let mut engine = Engine::open_with_options(&mut on(&disk), small_options()).expect("open");
    for i in 0..12u32 {
        engine.put(&mut on(&disk), format!("k{i:02}").as_bytes(), b"v").expect("put");
    }
    let told = stats(&disk, &engine);
    assert_eq!(told.flush_count, 3);
    assert_eq!(told.compaction_count, 1);
    assert_eq!(told.sst_count, 1);
    for i in 0..12u32 {
        assert_eq!(get(&disk, &mut engine, format!("k{i:02}").as_bytes()).as_deref(), Some(&b"v"[..]));
    }
}

#[test]
fn a_merge_prepared_apart_keeps_later_flushes() {
    let disk = Disk::new();
    let mut engine = Engine::open_with_options(&mut on(&disk), small_options()).expect("open");
    engine.set_auto_compact_on_flush(false);
    for i in 0..12u32 {
        engine.put(&mut on(&disk), format!("k{i:02}").as_bytes(), b"old").expect("put");
    }
    assert!(engine.compaction_pending());
    let snapshot = engine.compaction_snapshot().expect("pending");
    let job = snapshot.build(&mut on(&disk)).expect("build");
    engine.put(&mut on(&disk), b"k00", b"new").expect("put");
    engine.delete(&mut on(&disk), b"k01").expect("delete");
    engine.flush(&mut on(&disk)).expect("flush");
    engine.compact_commit(&mut on(&disk), job).expect("commit");
    assert_eq!(engine.current.ssts.len(), 2);
    assert_eq!(get(&disk, &mut engine, b"k00").as_deref(), Some(&b"new"[..]));
    assert_eq!(get(&disk, &mut engine, b"k01"), None);
    assert_eq!(get(&disk, &mut engine, b"k11").as_deref(), Some(&b"old"[..]));
    drop(engine);
    disk.restart();
    let mut engine = Engine::open_with_options(&mut on(&disk), small_options()).expect("reopen");
    assert_eq!(get(&disk, &mut engine, b"k00").as_deref(), Some(&b"new"[..]));
    assert_eq!(get(&disk, &mut engine, b"k01"), None);
}

#[test]
fn a_merge_gives_its_inputs_up() {
    let disk = Disk::new();
    let mut engine = Engine::open(&mut on(&disk)).expect("open");
    for value in [b"1", b"2", b"3"] {
        engine.put(&mut on(&disk), b"a", value).expect("put");
        engine.flush(&mut on(&disk)).expect("flush");
    }
    let old: Vec<String> = engine.current.ssts.iter().map(|t| t.path.clone()).collect();
    assert_eq!(old.len(), 3);
    disk.stubborn.borrow_mut().insert(old[1].clone(), 1);
    engine.compact_now(&mut on(&disk)).expect("compact");
    assert!(!disk.has(&old[0]) && !disk.has(&old[2]));
    assert_eq!(stats(&disk, &engine).compaction_remove_failures, 1);
    assert_eq!(get(&disk, &mut engine, b"a").as_deref(), Some(&b"3"[..]));
    drop(engine);
    disk.restart();
    let mut engine = Engine::open(&mut on(&disk)).expect("reopen");
    assert!(!disk.has(&old[1]), "what stayed behind is swept away");
    assert_eq!(get(&disk, &mut engine, b"a").as_deref(), Some(&b"3"[..]));
}

#[test]
fn a_merge_whose_inputs_are_gone_is_refused() {
    let disk = Disk::new();
    let mut engine = Engine::open_with_options(&mut on(&disk), small_options()).expect("open");
    engine.set_auto_compact_on_flush(false);
    for i in 0..12u32 {
        engine.put(&mut on(&disk), format!("k{i:02}").as_bytes(), b"v").expect("put");
    }
    let first = engine.compact_prepare(&mut on(&disk)).expect("prepare").expect("pending");
    let second = engine.compact_prepare(&mut on(&disk)).expect("prepare").expect("pending");
    engine.compact_commit(&mut on(&disk), first).expect("commit");
    let err = engine.compact_commit(&mut on(&disk), second).expect_err("inputs are gone");
    assert!(matches!(err, EngineError::VersionEditMissingInput { .. }));
    assert_eq!(get(&disk, &mut engine, b"k07").as_deref(), Some(&b"v"[..]));
    assert!(engine.compact_prepare(&mut on(&disk)).expect("prepare").is_none());
}

#[test]
fn a_snapshot_stays_as_it_was() {
    let disk = Disk::new();
    let mut engine = Engine::open(&mut on(&disk)).expect("open");
    engine.put(&mut on(&disk), b"a", b"1").expect("put");
    engine.flush(&mut on(&disk)).expect("flush");
    let snapshot = engine.snapshot();
    let ids = snapshot.version.ids();
    assert_eq!(stats(&disk, &engine).active_snapshots, 1);
    engine.put(&mut on(&disk), b"b", b"2").expect("put");
    engine.flush(&mut on(&disk)).expect("flush");
    engine.compact_now(&mut on(&disk)).expect("compact");
    assert_eq!(snapshot.version.ids(), ids);
    assert_ne!(engine.current.ids(), ids);
    engine.release(snapshot);
    assert_eq!(stats(&disk, &engine).active_snapshots, 0);
}

#[test]
fn scans_overlay_newer_layers() {
    let disk = Disk::new();
    let mut engine = Engine::open(&mut on(&disk)).expect("open");
    for (k, v) in [(b"p/1", b"a"), (b"p/2", b"b"), (b"p/3", b"c"), (b"q/1", b"d")] {
        engine.put(&mut on(&disk), k, v).expect("put");
    }
    engine.flush(&mut on(&disk)).expect("flush");
    engine.delete(&mut on(&disk), b"p/2").expect("delete");
    engine.flush(&mut on(&disk)).expect("flush");
    engine.put(&mut on(&disk), b"p/3", b"C").expect("put");
    let found: Vec<_> = engine
        .scan_prefix(&disk, b"p/")
        .expect("scan")
        .into_iter()
        .map(|(k, v)| (k.into_bytes(), v))
        .collect();
    assert_eq!(found, vec![(b"p/1".to_vec(), b"a".to_vec()), (b"p/3".to_vec(), b"C".to_vec())]);
    assert_eq!(engine.scan_range(&disk, b"p/3", b"q/2").expect("scan").len(), 2);
    assert_eq!(engine.scan_range(&disk, b"q/2", b"p/3").expect("scan").len(), 0);
    assert_eq!(engine.scan_prefix(&disk, b"").expect("scan").len(), 3);
}

#[test]
fn pages_put_the_range_together_again() {
    let disk = Disk::new();
    let mut engine = Engine::open_with_options(&mut on(&disk), small_options()).expect("open");
    engine.set_auto_compact_on_flush(false);
    for i in 0..60u32 {
        engine.put(&mut on(&disk), format!("k{:03}", (i * 7) % 60).as_bytes(), &[i as u8; 40]).expect("put");
        if i % 5 == 0 {
            engine.delete(&mut on(&disk), format!("k{:03}", i / 2).as_bytes()).expect("delete");
        }
    }
    let whole = engine.scan_range(&disk, b"k000", b"k050").expect("scan");
    let mut pages = Vec::new();
    let mut start = b"k000".to_vec();
    loop {
        let page = engine.scan_range_page(&disk, &start, b"k050", 3).expect("page");
        pages.extend(page.entries);
        match page.next_start {
            Some(next) => {
                assert!(next > start, "a page must move on");
                start = next;
            }
            None => break,
        }
    }
    assert_eq!(pages, whole);
    let none = engine.scan_range_page(&disk, b"k000", b"k050", 0).expect("page");
    assert!(none.entries.is_empty() && none.next_start.is_none());
    let none = engine.scan_range_page(&disk, b"k050", b"k000", 5).expect("page");
    assert!(none.entries.is_empty() && none.next_start.is_none());
}

#[test]
fn a_torn_batch_is_not_replayed_in_part() {
    let disk = Disk::new();
    {
        let mut engine = Engine::open(&mut on(&disk)).expect("open");
        engine.put(&mut on(&disk), b"a", b"1").expect("put");
        let mut batch = Batch::new();
        batch.put(b"b", b"2");
        batch.put(b"c", b"3");
        engine.apply_batch(&mut on(&disk), &batch).expect("apply");
    }
    disk.restart();
    let log = disk.read("wal.log").expect("log");
    disk.write("wal.log", &log[..log.len() - 1]);
    let mut engine = Engine::open(&mut on(&disk)).expect("reopen");
    assert_eq!(get(&disk, &mut engine, b"a").as_deref(), Some(&b"1"[..]));
    assert_eq!(get(&disk, &mut engine, b"b"), None);
    assert_eq!(get(&disk, &mut engine, b"c"), None);
}

// Opening.

#[test]
fn two_stores_have_identities_of_their_own() {
    let (one, two) = (Disk::new(), Disk::new());
    let a = Engine::open(&mut on(&one)).expect("open").store_id();
    let b = Engine::open(&mut on(&two)).expect("open").store_id();
    assert_ne!(a, b);
    for id in [a, b] {
        assert_eq!((id >> 76) & 0xF, 7, "the version nibble of a time-ordered identity");
        assert_eq!((id >> 62) & 0x3, 2, "the variant bits");
    }
    one.restart();
    assert_eq!(Engine::open(&mut on(&one)).expect("reopen").store_id(), a);
}

#[test]
fn a_second_writer_is_refused() {
    let disk = Disk::new();
    let _engine = Engine::open(&mut on(&disk)).expect("open");
    let err = Engine::open(&mut on(&disk)).expect_err("held");
    assert!(matches!(err, EngineError::StoreLocked { .. }));
}

#[test]
fn another_store_format_is_refused() {
    let disk = Disk::new();
    let meta = StoreMeta { store_format_version: STORE_FORMAT_VERSION + 1, store_id: Some(1) };
    on(&disk).write_store_meta(&meta).expect("write");
    let err = Engine::open(&mut on(&disk)).expect_err("another format");
    let EngineError::UnsupportedStoreFormat { expected, found, .. } = err else {
        panic!("unexpected error")
    };
    assert_eq!((expected, found), (STORE_FORMAT_VERSION, STORE_FORMAT_VERSION + 1));
}

#[test]
fn a_live_table_that_is_gone_is_told() {
    let disk = Disk::new();
    {
        let mut engine = Engine::open(&mut on(&disk)).expect("open");
        engine.put(&mut on(&disk), b"a", b"1").expect("put");
        engine.flush(&mut on(&disk)).expect("flush");
    }
    disk.restart();
    disk.remove(&sst_path("", 0));
    let err = Engine::open(&mut on(&disk)).expect_err("a live table is gone");
    assert!(matches!(err, EngineError::MissingLiveSst { id: 0, .. }));
}

#[test]
fn a_corrupt_manifest_is_told() {
    let disk = Disk::new();
    {
        let mut engine = Engine::open(&mut on(&disk)).expect("open");
        engine.put(&mut on(&disk), b"a", b"1").expect("put");
        engine.flush(&mut on(&disk)).expect("flush");
    }
    disk.restart();
    disk.write("manifest.meta", b"short");
    let err = Engine::open(&mut on(&disk)).expect_err("the manifest does not decode");
    assert!(matches!(err, EngineError::CorruptSstManifest { .. }));
}

#[test]
fn a_table_that_is_not_live_is_swept_away() {
    let disk = Disk::new();
    {
        let mut engine = Engine::open(&mut on(&disk)).expect("open");
        engine.put(&mut on(&disk), b"a", b"1").expect("put");
        engine.flush(&mut on(&disk)).expect("flush");
    }
    disk.restart();
    let data = vec![(Key::from(&b"a"[..]), Some(b"never published".to_vec()))];
    let orphan = write_table(&disk, "", 7, &data, 4096);
    disk.write("00000000000000000009.sst.tmp", b"12345");
    let mut engine = Engine::open(&mut on(&disk)).expect("reopen");
    assert!(!disk.has(&orphan.path));
    assert_eq!(engine.current.ids(), vec![0]);
    assert_eq!(engine.next_sst_id, 8);
    assert_eq!(stats(&disk, &engine).orphan_bytes, 5);
    assert_eq!(get(&disk, &mut engine, b"a").as_deref(), Some(&b"1"[..]));
}

#[test]
fn the_passphrase_profile_is_only_for_new_records() {
    let disk = Disk::new();
    drop(
        Engine::open_with_passphrase_and_profile(&mut on(&disk), b"words", Argon2idProfile::Constrained).expect("create"),
    );
    disk.restart();
    let engine = Engine::open_with_passphrase(&mut on(&disk), b"words").expect("reopen");
    assert!(engine.is_encrypted());
}

// Rotation.

#[test]
fn a_rotation_that_cannot_publish_leaves_the_old_generation() {
    let disk = Disk::new();
    let mut engine = Engine::open_encrypted(&mut on(&disk), KEY).expect("open");
    engine.put(&mut on(&disk), b"a", b"1").expect("put");
    *disk.refused.borrow_mut() = Some("generation.meta".to_string());
    assert!(engine.rotate_key_full(&mut on(&disk), b"fresh key", disk.fsyncs.get()).is_err());
    *disk.refused.borrow_mut() = None;
    assert_eq!(engine.dir, "");
    engine.put(&mut on(&disk), b"b", b"2").expect("put");
    assert_eq!(get(&disk, &mut engine, b"a").as_deref(), Some(&b"1"[..]));
    drop(engine);
    disk.restart();
    let mut engine = Engine::open_encrypted(&mut on(&disk), KEY).expect("the old key still opens");
    assert_eq!(get(&disk, &mut engine, b"a").as_deref(), Some(&b"1"[..]));
    assert_eq!(get(&disk, &mut engine, b"b").as_deref(), Some(&b"2"[..]));
}

#[test]
fn a_rotation_leaves_no_old_block_behind_in_the_cache() {
    let disk = Disk::new();
    let mut engine = Engine::open_encrypted(&mut on(&disk), KEY).expect("open");
    engine.put(&mut on(&disk), b"a", b"1").expect("put");
    engine.put(&mut on(&disk), b"z", b"26").expect("put");
    engine.flush(&mut on(&disk)).expect("flush");
    assert_eq!(get(&disk, &mut engine, b"a").as_deref(), Some(&b"1"[..]));
    engine.delete(&mut on(&disk), b"a").expect("delete");
    engine.rotate_key_full(&mut on(&disk), b"fresh key", disk.fsyncs.get()).expect("rotate");
    assert_eq!(get(&disk, &mut engine, b"a"), None);
    assert_eq!(get(&disk, &mut engine, b"z").as_deref(), Some(&b"26"[..]));
}

#[test]
fn what_cannot_be_removed_is_counted() {
    let disk = Disk::new();
    let mut engine = Engine::open_encrypted(&mut on(&disk), KEY).expect("open");
    engine.put(&mut on(&disk), b"a", b"1").expect("put");
    disk.stubborn.borrow_mut().insert("wal.log".to_string(), 2);
    engine.rotate_key_full(&mut on(&disk), b"second", disk.fsyncs.get()).expect("rotate");
    assert!(!disk.has("wal.log"), "the third attempt succeeds");
    let told = stats(&disk, &engine);
    assert_eq!(told.generation_remove_failures, 1, "only the key record's temporary file, which is not there");
}

// Findings of the audit, one by one.

/// Writes a table with an index that `patch` has altered, into a store whose
/// manifest lists it.
fn store_with_patched_index(patch: impl FnOnce(&mut Vec<SstBlockIndexEntry>)) -> Disk {
    let disk = Disk::new();
    {
        let mut engine = Engine::open_with_options(&mut on(&disk), audit_options()).expect("open");
        for i in 0..80u32 {
            engine.put(&mut on(&disk), format!("key-{i:04}").as_bytes(), &[7u8; 30]).expect("put");
        }
        engine.close(&mut on(&disk)).expect("close");
    }
    disk.restart();
    patch_index(&disk, &the_sst(&disk), patch);
    disk
}

#[test]
fn a_wrong_tombstone_count_is_found() {
    let disk = store_with_patched_index(|index| index[0].tombstone_count = 5);
    let report = audit(&disk, None, VerifyMode::FullPhysical).expect("verify");
    assert!(has_error(&report, IssueKind::SstMetadataMismatch), "errors: {:?}", report.errors);
}

#[test]
fn a_gap_between_blocks_is_found() {
    let disk = store_with_patched_index(|index| index[1].offset += 1);
    let report = audit(&disk, None, VerifyMode::Quick).expect("verify");
    assert!(has_error(&report, IssueKind::SstBlockLayout), "errors: {:?}", report.errors);
}

#[test]
fn a_key_missing_from_the_filter_is_found() {
    let disk = Disk::new();
    {
        let mut engine = Engine::open(&mut on(&disk)).expect("open");
        engine.put(&mut on(&disk), b"a", b"1").expect("put");
        engine.close(&mut on(&disk)).expect("close");
    }
    disk.restart();
    let path = the_sst(&disk);
    let footer = footer_of(&disk, &path);
    let mut raw = disk.read(&path).expect("file");
    let (from, to) = (footer.bloom_offset as usize, (footer.bloom_offset + u64::from(footer.bloom_len)) as usize);
    let mut payload = unseal(None, 0, BLOOM, 0, &raw[from..to]).expect("filter");
    for b in payload.iter_mut().skip(16) {
        *b = 0;
    }
    raw[from..to].copy_from_slice(&seal(None, 0, BLOOM, 0, &payload));
    disk.write(&path, &raw);
    let report = audit(&disk, None, VerifyMode::FullPhysical).expect("verify");
    assert!(has_error(&report, IssueKind::SstBloomFalseNegative), "errors: {:?}", report.errors);
}

#[test]
fn an_error_tells_where_and_why() {
    let disk = build_store(false);
    disk.flip(&the_sst(&disk), HEADER_LEN + 4);
    let report = audit(&disk, None, VerifyMode::FullPhysical).expect("verify");
    let first = &report.errors[0];
    assert_eq!(first.path, "00000000000000000000.sst");
    assert!(first.detail.contains("bad checksum"), "{}", first.detail);
}

#[test]
fn a_dead_neighbor_and_a_foreign_dimension_are_found() {
    let disk = build_composed_store();
    change(&disk, |engine| {
        let node = VectorNode { dim: DIM + 1, neighbors: vec![4242], deleted: false };
        engine.put(&mut on(&disk), vector_index::node_key(0).as_bytes(), &encode_node(&node)).expect("put");
    });
    let report = full_logical(&disk);
    assert!(has_error(&report, IssueKind::VectorNeighborMissing), "errors: {:?}", report.errors);
    assert!(has_error(&report, IssueKind::VectorDimMismatch), "errors: {:?}", report.errors);
}

#[test]
fn a_wrong_vector_count_is_a_warning() {
    let disk = build_composed_store();
    change(&disk, |engine| {
        let meta = VectorIndexMeta { dim: DIM, count: 77, entry_point: Some(0) };
        engine.put(&mut on(&disk), &vector_index::META_KEY, &encode_vector_meta(meta)).expect("put");
    });
    let report = full_logical(&disk);
    assert!(report.healthy, "errors: {:?}", report.errors);
    assert!(has_warning(&report, IssueKind::VectorMetaInconsistent), "warnings: {:?}", report.warnings);
}

#[test]
fn a_record_without_its_vector_asks_for_a_new_one() {
    let disk = Disk::new();
    let mut engine = Engine::open(&mut on(&disk)).expect("open");
    remember(&disk, &mut engine, "a", "one", "hello world", 2);
    let two = remember(&disk, &mut engine, "a", "two", "bye world", 2);
    engine.delete(&mut on(&disk), vector_index::node_key(two).as_bytes()).expect("delete node");
    let rebuilt = rebuild_indexes(&mut on(&disk), &disk, &fts_prefixes(), &mut engine).expect("rebuild");
    assert_eq!(rebuilt.reembedding_required, vec![("a".to_string(), "two".to_string())]);
    assert_eq!(rebuilt.fts_documents_rebuilt, 2);
    assert_eq!(next_vec_id(&disk, &engine), two + 1);
    let key = memory_index::record_key("a", "two").expect("record key");
    assert!(peek(&disk, &engine, key.as_bytes()).is_some(), "the record itself stays");
}

#[test]
fn a_rebuild_drops_stale_mappings_and_texts() {
    let disk = Disk::new();
    let mut engine = Engine::open(&mut on(&disk)).expect("open");
    remember(&disk, &mut engine, "a", "one", "hello world", 2);
    let stale = disk.encode_vecmap("nobody", "nothing").expect("encode");
    engine.put(&mut on(&disk), memory_index::vecmap_key(99).as_bytes(), &stale).expect("put");
    engine.put(&mut on(&disk), &postings_key("a", "ghost", 99), &encode_posting(1)).expect("put");
    rebuild_indexes(&mut on(&disk), &disk, &fts_prefixes(), &mut engine).expect("rebuild");
    assert!(peek(&disk, &engine, memory_index::vecmap_key(99).as_bytes()).is_none());
    assert!(peek(&disk, &engine, &postings_key("a", "ghost", 99)).is_none());
    assert!(peek(&disk, &engine, &postings_key("a", "hello", 0)).is_some());
}

#[test]
fn a_plan_names_each_action_once() {
    let disk = build_composed_store();
    change(&disk, |engine| {
        for id in ["m0", "m1"] {
            let vec_id = vec_id_of(&disk, engine, "agent-a", id);
            engine.delete(&mut on(&disk), memory_index::vecmap_key(vec_id).as_bytes()).expect("delete vecmap");
        }
    });
    let report = full_logical(&disk);
    assert!(report.errors.len() >= 2);
    let plan = plan_repair(&report);
    let count = plan.actions.iter().filter(|a| **a == RepairAction::RebuildMemoryMappings).count();
    assert_eq!(count, 1);
    assert!(plan.primary_data_at_risk.is_empty());
}

#[test]
fn corrupt_primary_data_is_at_risk_and_not_planned_for() {
    let disk = build_store(false);
    disk.flip(&the_sst(&disk), HEADER_LEN + 4);
    let report = audit(&disk, None, VerifyMode::FullPhysical).expect("verify");
    let plan = plan_repair(&report);
    assert!(plan.actions.is_empty());
    assert_eq!(plan.primary_data_at_risk.len(), report.errors.len());
}

#[test]
fn a_lone_key_record_is_a_fresh_store() {
    let disk = Disk::new();
    let key = UserKey { bytes: KEY.to_vec(), mode: KeyMode::RawKey, profile: Argon2idProfile::Default };
    on(&disk).create_crypto("", &key, None).expect("a crash left the key record alone");
    disk.restart();
    let mut engine = Engine::open_encrypted(&mut on(&disk), KEY).expect("the store is made all the same");
    assert!(disk.has("store.meta"));
    engine.put(&mut on(&disk), b"k", b"v").expect("put");
    assert_eq!(get(&disk, &mut engine, b"k"), Some(b"v".to_vec()));
}

#[test]
fn a_refused_key_makes_no_key_record() {
    let disk = Disk::new();
    {
        let mut engine = Engine::open(&mut on(&disk)).expect("open");
        engine.put(&mut on(&disk), b"k", b"v").expect("put");
        engine.flush(&mut on(&disk)).expect("flush");
    }
    disk.restart();
    disk.noted();
    let err = Engine::open_encrypted(&mut on(&disk), KEY).expect_err("a plaintext store takes no key");
    assert!(matches!(err, EngineError::PlaintextStoreKeySupplied { .. }), "{err:?}");
    assert!(!disk.has("crypto.meta"));
    assert_eq!(disk.noted(), Vec::<String>::new());
}

#[test]
fn a_refused_edit_touches_nothing() {
    let disk = Disk::new();
    let mut engine = Engine::open(&mut on(&disk)).expect("open");
    engine.put(&mut on(&disk), b"k", b"v").expect("put");
    engine.flush(&mut on(&disk)).expect("flush");
    let manifest = disk.read("manifest.meta");
    disk.noted();
    let forged = VersionEdit { added: Vec::new(), deleted: vec![77] };
    let err = engine.apply_version_edit(&mut on(&disk), forged).expect_err("no such table");
    assert!(matches!(err, EngineError::VersionEditMissingInput { id: 77 }), "{err:?}");
    assert_eq!(disk.read("manifest.meta"), manifest);
    assert_eq!(disk.noted(), Vec::<String>::new());
}

#[test]
fn a_flush_writes_then_publishes_then_empties_the_log() {
    let disk = Disk::new();
    let mut engine = Engine::open(&mut on(&disk)).expect("open");
    engine.put(&mut on(&disk), b"k", b"v").expect("put");
    disk.noted();
    engine.flush(&mut on(&disk)).expect("flush");
    let wrote = |id: u64| format!("write {}", sst_path("", id));
    assert_eq!(disk.noted(), vec![wrote(0), "manifest ".to_string(), "reset ".to_string()]);
    engine.put(&mut on(&disk), b"l", b"w").expect("put");
    disk.noted();
    *disk.refused.borrow_mut() = Some("manifest.meta".to_string());
    engine.flush(&mut on(&disk)).expect_err("refused");
    assert_eq!(disk.noted(), vec![wrote(1), "manifest ".to_string()]);
}

#[test]
fn a_merge_gives_its_inputs_up_last() {
    let disk = Disk::new();
    let mut engine = Engine::open(&mut on(&disk)).expect("open");
    for key in [b"a", b"b"] {
        engine.put(&mut on(&disk), key, b"v").expect("put");
        engine.flush(&mut on(&disk)).expect("flush");
    }
    disk.noted();
    engine.compact_now(&mut on(&disk)).expect("compact");
    let noted = disk.noted();
    assert_eq!(noted[..2], [format!("write {}", sst_path("", 2)), "manifest ".to_string()]);
    assert!(noted[2..].iter().all(|n| n.starts_with("retire ") || n.starts_with("remove ")), "{noted:?}");
    for id in [0, 1] {
        assert!(noted.contains(&format!("retire {}", sst_path("", id))), "{noted:?}");
    }
    assert_eq!(engine.current.ssts.len(), 1);
    assert_eq!(engine.current.ssts[0].tombstones, 0);
    assert_eq!(get(&disk, &mut engine, b"a"), Some(b"v".to_vec()));
    assert_eq!(get(&disk, &mut engine, b"b"), Some(b"v".to_vec()));
}

#[test]
fn a_rotation_removes_nothing_old_before_the_pointer_moves() {
    let disk = Disk::new();
    let mut engine = Engine::open_encrypted(&mut on(&disk), KEY).expect("open");
    engine.put(&mut on(&disk), b"k", b"v").expect("put");
    engine.flush(&mut on(&disk)).expect("flush");
    disk.noted();
    engine.rotate_key_full(&mut on(&disk), b"fresh key", 0).expect("rotate");
    let noted = disk.noted();
    let moved = noted.iter().position(|n| n == "point 1").expect("the pointer moves");
    assert!(noted[..moved].iter().all(|n| !n.starts_with("remove ") && !n.starts_with("retire ")), "{noted:?}");
    assert!(noted[moved..].iter().any(|n| n == "remove wal.log"), "{noted:?}");
}

#[test]
fn a_crash_at_any_step_of_a_flush_loses_nothing() {
    for part in ["0.sst", "manifest.meta"] {
        let disk = Disk::new();
        let mut engine = Engine::open(&mut on(&disk)).expect("open");
        engine.put(&mut on(&disk), b"k", b"v").expect("put");
        *disk.refused.borrow_mut() = Some(part.to_string());
        engine.flush(&mut on(&disk)).expect_err("refused");
        drop(engine);
        disk.restart();
        *disk.refused.borrow_mut() = None;
        let mut engine = Engine::open(&mut on(&disk)).expect("reopen");
        assert_eq!(get(&disk, &mut engine, b"k"), Some(b"v".to_vec()), "{part}");
    }
}

#[test]
fn a_rebuild_never_lowers_the_allocator() {
    let disk = Disk::new();
    let mut engine = Engine::open(&mut on(&disk)).expect("open");
    remember(&disk, &mut engine, "a", "one", "hello world", 2);
    let gone = VectorNode { dim: 2, neighbors: Vec::new(), deleted: true };
    engine.put(&mut on(&disk), vector_index::node_key(5).as_bytes(), &encode_node(&gone)).expect("put");
    let counter = disk.encode_memory_meta(6).expect("encode");
    engine.put(&mut on(&disk), &memory_index::META_KEY, &counter).expect("put");
    rebuild_indexes(&mut on(&disk), &disk, &fts_prefixes(), &mut engine).expect("rebuild");
    assert_eq!(next_vec_id(&disk, &engine), 6);
    let mapped = engine.scan_prefix(&disk, &memory_index::VECMAP_PREFIX).expect("scan");
    assert_eq!(mapped.len(), 1);
    assert_eq!(memory_index::vecmap_id(mapped[0].0.as_bytes()), Some(0));
    let entry = disk.vecmap(&mapped[0].1).expect("decode");
    assert_eq!((entry.agent.as_str(), entry.id.as_str()), ("a", "one"));
}

#[test]
fn a_rebuild_keeps_above_each_source_of_ids() {
    for (node, mapping, counter, next) in [(9u64, 3u64, 2u64, 10u64), (1, 8, 2, 9), (1, 2, 7, 7)] {
        let disk = Disk::new();
        let mut engine = Engine::open(&mut on(&disk)).expect("open");
        remember(&disk, &mut engine, "a", "one", "hello world", 2);
        let gone = VectorNode { dim: 2, neighbors: Vec::new(), deleted: true };
        engine.put(&mut on(&disk), vector_index::node_key(node).as_bytes(), &encode_node(&gone)).expect("put");
        let stale = disk.encode_vecmap("nobody", "nothing").expect("encode");
        engine.put(&mut on(&disk), memory_index::vecmap_key(mapping).as_bytes(), &stale).expect("put");
        let stored = disk.encode_memory_meta(counter).expect("encode");
        engine.put(&mut on(&disk), &memory_index::META_KEY, &stored).expect("put");
        rebuild_indexes(&mut on(&disk), &disk, &fts_prefixes(), &mut engine).expect("rebuild");
        assert_eq!(next_vec_id(&disk, &engine), next);
    }
}

#[test]
fn an_undecodable_counter_is_no_hindrance_to_a_rebuild() {
    let disk = Disk::new();
    let mut engine = Engine::open(&mut on(&disk)).expect("open");
    remember(&disk, &mut engine, "a", "one", "hello world", 2);
    engine.put(&mut on(&disk), &memory_index::META_KEY, b"garbage").expect("put");
    rebuild_indexes(&mut on(&disk), &disk, &fts_prefixes(), &mut engine).expect("rebuild");
    assert_eq!(next_vec_id(&disk, &engine), 1);
}

#[test]
fn retired_files_stay_while_a_snapshot_may_read_them() {
    let disk = Disk::new();
    let mut engine = Engine::open(&mut on(&disk)).expect("open");
    disk.write("7.sst", b"retired");
    let paths = vec!["7.sst".to_string(), "8.sst".to_string()];
    let snapshot = engine.snapshot();
    assert!(!engine.retired_may_go());
    assert_eq!(engine.remove_retired(&mut on(&disk), &paths, 3), 3);
    assert!(disk.has("7.sst"));
    engine.release(snapshot);
    assert!(engine.retired_may_go());
    assert_eq!(engine.remove_retired(&mut on(&disk), &paths, 3), 4, "one of the files is not there");
    assert!(!disk.has("7.sst"));
}

#[test]
fn an_audit_changes_nothing() {
    for mode in [VerifyMode::Quick, VerifyMode::FullPhysical, VerifyMode::FullLogical] {
        let disk = build_store(true);
        disk.noted();
        let files = disk.files.borrow().clone();
        audit(&disk, Some(KEY), mode).expect("verify");
        assert_eq!(disk.noted(), Vec::<String>::new());
        assert_eq!(*disk.files.borrow(), files);
    }
}

#[test]
fn the_log_epoch_record_is_the_stores_own() {
    let disk = build_store(false);
    assert!(disk.has("wal_epoch.meta"));
    let report = audit(&disk, None, VerifyMode::FullLogical).expect("verify");
    assert!(report.healthy && report.warnings.is_empty(), "warnings: {:?}", report.warnings);
}

#[test]
fn reopening_serves_the_same_after_any_calls() {
    let disk = Disk::new();
    let mut model: BTreeMap<Vec<u8>, Vec<u8>> = BTreeMap::new();
    let mut engine = Engine::open_with_options(&mut on(&disk), small_options()).expect("open");
    for step in 0u32..60 {
        let key = format!("k{}", step * 7 % 11).into_bytes();
        let other = format!("k{}", step * 5 % 11).into_bytes();
        let value = format!("v{step}").into_bytes();
        match step % 6 {
            0 | 1 => {
                engine.put(&mut on(&disk), &key, &value).expect("put");
                model.insert(key, value);
            }
            2 => {
                engine.delete(&mut on(&disk), &key).expect("delete");
                model.remove(&key);
            }
            3 => {
                let mut batch = Batch::new();
                batch.put(&key, &value);
                batch.delete(&other);
                engine.apply_batch(&mut on(&disk), &batch).expect("batch");
                model.insert(key, value);
                model.remove(&other);
            }
            4 => engine.flush(&mut on(&disk)).expect("flush"),
            _ => engine.compact_now(&mut on(&disk)).expect("compact"),
        }
        if step % 4 == 3 {
            drop(engine);
            disk.restart();
            engine = Engine::open_with_options(&mut on(&disk), small_options()).expect("reopen");
        }
        let held: Vec<(Vec<u8>, Vec<u8>)> = engine
            .scan_prefix(&disk, b"k")
            .expect("scan")
            .into_iter()
            .map(|(k, v)| (k.into_bytes(), v))
            .collect();
        let wanted: Vec<(Vec<u8>, Vec<u8>)> = model.iter().map(|(k, v)| (k.clone(), v.clone())).collect();
        assert_eq!(held, wanted, "after step {step}");
    }
}

#[test]
fn a_batch_cut_short_on_disk_is_not_seen_at_all() {
    let disk = Disk::new();
    let mut engine = Engine::open(&mut on(&disk)).expect("open");
    engine.put(&mut on(&disk), b"a", b"old").expect("put");
    let whole = disk.log_len("");
    let mut batch = Batch::new();
    batch.put(b"a", b"new");
    batch.put(b"b", b"new");
    engine.apply_batch(&mut on(&disk), &batch).expect("batch");
    drop(engine);
    let log = disk.read("wal.log").expect("log");
    for len in whole as usize..log.len() {
        disk.restart();
        disk.write("wal.log", &log[..len]);
        let mut engine = Engine::open(&mut on(&disk)).expect("reopen");
        assert_eq!(get(&disk, &mut engine, b"a"), Some(b"old".to_vec()), "cut at {len}");
        assert_eq!(get(&disk, &mut engine, b"b"), None, "cut at {len}");
    }
    disk.restart();
    disk.write("wal.log", &log);
    let mut engine = Engine::open(&mut on(&disk)).expect("reopen");
    assert_eq!(get(&disk, &mut engine, b"a"), Some(b"new".to_vec()));
    assert_eq!(get(&disk, &mut engine, b"b"), Some(b"new".to_vec()));
}

#[test]
fn after_a_rewrap_only_the_new_key_opens() {
    let disk = Disk::new();
    let mut engine = Engine::open_encrypted(&mut on(&disk), KEY).expect("open");
    engine.put(&mut on(&disk), b"k", b"v").expect("put");
    engine.rotate_passphrase(&mut on(&disk), b"words").expect("rotate");
    drop(engine);
    for wrong in [KEY, &b"words"[..]] {
        disk.restart();
        let err = Engine::open_encrypted(&mut on(&disk), wrong).expect_err("no raw key opens it");
        assert!(matches!(err, EngineError::WrongEncryptionKey { .. }), "{err:?}");
        disk.restart();
        let err = audit(&disk, Some(wrong), VerifyMode::Quick).expect_err("no raw key audits it");
        assert!(matches!(err, EngineError::WrongEncryptionKey { .. }), "{err:?}");
    }
    disk.restart();
    let report = verify_store_with_passphrase(&mut on(&disk), &fts_prefixes(), Some(&b"words"[..]), VerifyMode::Quick);
    assert!(report.expect("the passphrase audits it").healthy);
    disk.restart();
    let mut engine = Engine::open_with_passphrase(&mut on(&disk), b"words").expect("the passphrase opens it");
    assert_eq!(get(&disk, &mut engine, b"k"), Some(b"v".to_vec()));
}

#[test]
fn logical_checks_see_reserved_keys_alone() {
    let disk = build_composed_store();
    let before = full_logical(&disk);
    change(&disk, |engine| {
        for key in [&b"plain"[..], b"idx", b"idy/x", b"\xff\xff"] {
            engine.put(&mut on(&disk), key, b"anything").expect("put");
        }
    });
    let after = full_logical(&disk);
    assert!(before.healthy && after.healthy, "errors: {:?}", after.errors);
    assert_eq!(before.warnings.len(), after.warnings.len());
}

#[test]
fn a_torn_log_and_strange_files_only_warn() {
    let disk = build_store(false);
    {
        let mut engine = Engine::open(&mut on(&disk)).expect("open");
        engine.put(&mut on(&disk), b"k", b"v").expect("put");
    }
    disk.restart();
    let mut log = disk.read("wal.log").expect("log");
    log.extend_from_slice(&[9, 0, 0, 0, 1]);
    disk.write("wal.log", &log);
    disk.write("left.tmp", b"");
    disk.write("notes.txt", b"");
    let report = audit(&disk, None, VerifyMode::FullLogical).expect("verify");
    assert!(report.healthy, "errors: {:?}", report.errors);
    for kind in [IssueKind::WalTornTail, IssueKind::OrphanTmpFile, IssueKind::UnknownFile] {
        assert!(has_warning(&report, kind), "warnings: {:?}", report.warnings);
    }
}

#[test]
fn no_live_table_is_given_up() {
    let disk = Disk::new();
    let mut engine = Engine::open_with_options(&mut on(&disk), small_options()).expect("open");
    let mut given_up: BTreeSet<String> = BTreeSet::new();
    for step in 0u32..40 {
        let key = format!("k{}", step % 9).into_bytes();
        engine.put(&mut on(&disk), &key, &step.to_le_bytes()).expect("put");
        if step % 13 == 12 {
            engine.compact_now(&mut on(&disk)).expect("compact");
        }
        for noted in disk.noted() {
            if let Some(path) = noted.strip_prefix("retire ") {
                given_up.insert(path.to_string());
            }
        }
        for sst in &engine.current.ssts {
            assert!(!given_up.contains(&sst.path), "{} at step {step}", sst.path);
            assert!(disk.has(&sst.path));
        }
    }
    assert!(!given_up.is_empty());
}

#[test]
fn two_files_of_one_id_are_both_kept() {
    let disk = Disk::new();
    {
        let mut engine = Engine::open(&mut on(&disk)).expect("open");
        engine.put(&mut on(&disk), b"a", b"1").expect("put");
        engine.flush(&mut on(&disk)).expect("flush");
    }
    disk.restart();
    let bytes = disk.read(&sst_path("", 0)).expect("table");
    disk.write("0.sst", &bytes);
    let mut engine = Engine::open(&mut on(&disk)).expect("reopen");
    assert_eq!(engine.current.ids(), vec![0, 0]);
    assert_eq!(engine.next_sst_id, 1);
    assert_eq!(get(&disk, &mut engine, b"a").as_deref(), Some(&b"1"[..]));
    engine.put(&mut on(&disk), b"b", b"2").expect("put");
    engine.compact_now(&mut on(&disk)).expect("compact");
    assert_eq!(engine.current.ids(), vec![2]);
    assert_eq!(get(&disk, &mut engine, b"a").as_deref(), Some(&b"1"[..]));
    assert_eq!(get(&disk, &mut engine, b"b").as_deref(), Some(&b"2"[..]));
}

#[test]
fn diagnoses_are_worded_as_promised() {
    let disk = build_store(false);
    let stamp = disk.read("store.meta").expect("stamp");
    disk.remove("store.meta");
    let report = audit(&disk, None, VerifyMode::Quick).expect("verify");
    assert_eq!(
        report.errors[0].detail,
        "store artifacts exist but store.meta is absent — a store from before ADR-039, which this build does not read"
    );
    disk.write("store.meta", &stamp[..4]);
    let report = audit(&disk, None, VerifyMode::Quick).expect("verify");
    let log = report.errors.iter().find(|e| e.kind == IssueKind::WalCorrupt).expect("the log cannot be scanned");
    assert!(
        log.detail.contains(
            "store.meta has no store_id — cannot reconstruct the WAL AAD (ADR-044 §4); reopen the store for writing once to upgrade it"
        ),
        "{}",
        log.detail
    );
    let disk = build_composed_store();
    change(&disk, |engine| {
        engine.delete(&mut on(&disk), &memory_index::META_KEY).expect("delete meta");
    });
    let report = full_logical(&disk);
    assert!(report.healthy, "errors: {:?}", report.errors);
    assert_eq!(
        report.warnings[0].detail,
        "allocator metadata is absent while vector ids up to 4 are in use — healed from data at the next open (ADR-027 §4)"
    );
}

#[test]
fn a_bad_block_is_met_only_where_the_walk_comes_to_it() {
    let disk = Disk::new();
    let options = EngineOptions { block_size: 256, ..EngineOptions::default() };
    let mut engine = Engine::open_with_options(&mut on(&disk), options).expect("open");
    for i in 0..60u32 {
        engine.put(&mut on(&disk), format!("k{i:02}").as_bytes(), &[b'v'; 40]).expect("put");
    }
    engine.flush(&mut on(&disk)).expect("flush");
    let file = engine.current.ssts[0].clone();
    let last = file.block_index.last().expect("blocks");
    assert!(file.block_index.len() > 3);
    disk.flip(&file.path, last.offset as usize + 1);
    let page = engine.scan_range_page(&disk, b"k00", b"k99", 3).expect("the first block is whole");
    assert!(page.entries.len() >= 3 && page.next_start.is_some());
    assert_eq!(engine.scan_range(&disk, b"k00", b"k10").expect("the first blocks are whole").len(), 10);
    assert!(engine.scan_range(&disk, b"k00", b"k99").is_err());
    assert!(engine.scan_prefix(&disk, b"k5").is_err());
    assert!(engine.scan_range_page(&disk, b"k00", b"k99", 1000).is_err());
    engine.compact_now(&mut on(&disk)).expect_err("the merge reads every block");
    assert_eq!(get(&disk, &mut engine, b"k00").as_deref(), Some(&[b'v'; 40][..]));
}

#[test]
fn scans_agree_with_lookups() {
    let disk = Disk::new();
    let mut engine = Engine::open_with_options(&mut on(&disk), small_options()).expect("open");
    for step in 0u32..50 {
        let key = format!("{}/{:02}", step % 3, step * 7 % 20);
        if step % 4 == 3 {
            engine.delete(&mut on(&disk), key.as_bytes()).expect("delete");
        } else {
            engine.put(&mut on(&disk), key.as_bytes(), &step.to_le_bytes()).expect("put");
        }
    }
    for prefix in ["0/", "1/", "2/", "3/"] {
        let found: BTreeMap<Vec<u8>, Vec<u8>> = engine
            .scan_prefix(&disk, prefix.as_bytes())
            .expect("scan")
            .into_iter()
            .map(|(k, v)| (k.into_bytes(), v))
            .collect();
        for i in 0..20 {
            let key = format!("{prefix}{i:02}").into_bytes();
            assert_eq!(found.get(&key), get(&disk, &mut engine, &key).as_ref(), "{prefix}{i:02}");
        }
    }
}

#[test]
fn the_last_operation_of_a_batch_on_a_key_decides() {
    let disk = Disk::new();
    let mut engine = Engine::open(&mut on(&disk)).expect("open");
    engine.put(&mut on(&disk), b"c", b"kept").expect("put");
    let mut batch = Batch::new();
    batch.put(b"a", b"1");
    batch.delete(b"a");
    batch.delete(b"b");
    batch.put(b"b", b"2");
    engine.apply_batch(&mut on(&disk), &batch).expect("batch");
    assert_eq!(get(&disk, &mut engine, b"a"), None);
    assert_eq!(get(&disk, &mut engine, b"b").as_deref(), Some(&b"2"[..]));
    assert_eq!(get(&disk, &mut engine, b"c").as_deref(), Some(&b"kept"[..]));
    assert_eq!(stats(&disk, &engine).wal_records, 2);
}

#[test]
fn compacting_is_counted_and_leaves_no_tombstone() {
    let disk = Disk::new();
    let mut engine = Engine::open(&mut on(&disk)).expect("open");
    engine.put(&mut on(&disk), b"a", b"1").expect("put");
    engine.put(&mut on(&disk), b"b", b"2").expect("put");
    engine.flush(&mut on(&disk)).expect("flush");
    engine.delete(&mut on(&disk), b"a").expect("delete");
    engine.flush(&mut on(&disk)).expect("flush");
    let before = stats(&disk, &engine);
    assert_eq!((before.sst_count, before.tombstone_count), (2, 1));
    engine.compact_now(&mut on(&disk)).expect("compact");
    let after = stats(&disk, &engine);
    assert_eq!((after.sst_count, after.tombstone_count), (1, 0));
    assert_eq!(after.compaction_count, before.compaction_count + 1);
    assert_eq!(after.compaction_input_bytes - before.compaction_input_bytes, before.sst_bytes);
    assert_eq!(after.compaction_output_bytes - before.compaction_output_bytes, after.sst_bytes);
    assert_eq!(get(&disk, &mut engine, b"a"), None);
    assert_eq!(get(&disk, &mut engine, b"b").as_deref(), Some(&b"2"[..]));
}

#[test]
fn a_written_table_tells_its_rows_and_tombstones() {
    let disk = Disk::new();
    let rows = entries(40, 30);
    let written = write_table(&disk, "", 3, &rows, 256);
    let loaded = load_table(&disk, &written.path, 3).expect("load");
    assert_eq!(loaded.tombstones, 6);
    assert_eq!(loaded.entries(&disk).expect("entries"), rows);
}

#[test]
fn a_rotation_keeps_every_answer_and_audits_without_a_finding() {
    let words = b"fresh words";
    for full in [false, true] {
        let disk = build_store(true);
        let mut engine = Engine::open_encrypted_with_options(&mut on(&disk), KEY, audit_options()).expect("open");
        let held = engine.scan_prefix(&disk, b"").expect("scan");
        let before = stats(&disk, &engine).tombstone_count;
        if full {
            engine.rotate_passphrase_full(&mut on(&disk), words, disk.fsyncs.get()).expect("rotate");
            assert_eq!((stats(&disk, &engine).sst_count, stats(&disk, &engine).tombstone_count), (1, 0));
        } else {
            engine.rotate_passphrase(&mut on(&disk), words).expect("rotate");
            assert_eq!(stats(&disk, &engine).tombstone_count, before);
        }
        assert_eq!(engine.scan_prefix(&disk, b"").expect("scan"), held);
        for (key, value) in &held {
            assert_eq!(get(&disk, &mut engine, key.as_bytes()).as_ref(), Some(value));
        }
        assert_eq!(get(&disk, &mut engine, b"key-0007"), None);
        drop(engine);
        disk.restart();
        for mode in [VerifyMode::Quick, VerifyMode::FullPhysical, VerifyMode::FullLogical] {
            let report = verify_store_with_passphrase(&mut on(&disk), &fts_prefixes(), Some(&words[..]), mode);
            let report = report.expect("verify");
            assert!(report.healthy && report.warnings.is_empty(), "{:?} {:?}", report.errors, report.warnings);
            for wrong in [KEY, &words[..]] {
                let err = audit(&disk, Some(wrong), mode).expect_err("no raw key audits it");
                assert!(matches!(err, EngineError::WrongEncryptionKey { .. }), "{err:?}");
            }
            let err = audit(&disk, None, mode).expect_err("a key is needed");
            assert!(matches!(err, EngineError::MissingEncryptionKey { .. }), "{err:?}");
        }
        let mut engine = Engine::open_with_passphrase(&mut on(&disk), words).expect("reopen");
        assert_eq!(engine.scan_prefix(&disk, b"").expect("scan"), held);
        assert_eq!(get(&disk, &mut engine, b"key-0013"), None);
    }
}

#[test]
fn a_quick_audit_does_not_see_into_blocks() {
    let disk = build_store(false);
    let before = audit(&disk, None, VerifyMode::Quick).expect("verify");
    disk.flip(&the_sst(&disk), HEADER_LEN + 4);
    let after = audit(&disk, None, VerifyMode::Quick).expect("verify");
    assert!(before.healthy && after.healthy);
    assert_eq!(before.warnings.len(), after.warnings.len());
    assert_eq!(
        (before.files_checked, before.blocks_checked, before.records_checked),
        (after.files_checked, after.blocks_checked, after.records_checked)
    );
    assert!(!audit(&disk, None, VerifyMode::FullPhysical).expect("verify").healthy);
}

#[test]
fn a_rebuild_writes_no_record_entity_or_edge() {
    let disk = build_composed_store();
    let mut engine = Engine::open_with_options(&mut on(&disk), small_options()).expect("open");
    let prefixes = [&memory_index::RECORD_PREFIX[..], &graph_index::ENTITY_PREFIX[..], &graph_index::EDGE_PREFIX[..]];
    let before: Vec<_> = prefixes.iter().map(|p| engine.scan_prefix(&disk, p).expect("scan")).collect();
    assert!(before.iter().all(|found| !found.is_empty()));
    engine.delete(&mut on(&disk), memory_index::vecmap_key(0).as_bytes()).expect("delete");
    rebuild_indexes(&mut on(&disk), &disk, &fts_prefixes(), &mut engine).expect("rebuild");
    let after: Vec<_> = prefixes.iter().map(|p| engine.scan_prefix(&disk, p).expect("scan")).collect();
    assert_eq!(before, after);
    drop(engine);
    disk.restart();
    let report = full_logical(&disk);
    assert!(report.healthy, "errors: {:?}", report.errors);
}

#[test]
fn a_vector_index_alone_raises_no_memory_finding() {
    let disk = Disk::new();
    change(&disk, |engine| {
        let batch = stage_node(&disk, engine, 7, VectorNode { dim: DIM, neighbors: Vec::new(), deleted: false });
        engine.apply_batch(&mut on(&disk), &batch).expect("insert");
    });
    let report = full_logical(&disk);
    for kind in [IssueKind::MemoryLinkBroken, IssueKind::AllocatorStale] {
        assert!(!has_error(&report, kind) && !has_warning(&report, kind));
    }
}
