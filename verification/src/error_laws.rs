//! What an error says in words.
use crate::error::{at_path, versions, EngineError};
use crate::text::{contains_text, dec_text, text_at};
use vstd::prelude::*;

verus! {

proof fn lemma_among(a: Seq<char>, b: Seq<char>, c: Seq<char>)
    ensures
        contains_text(a + b + c, b),
{
    assert((a + b + c).subrange(a.len() as int, (a.len() + b.len()) as int) =~= b);
    assert(text_at(a + b + c, b, a.len() as int));
}

proof fn lemma_last(a: Seq<char>, b: Seq<char>)
    ensures
        contains_text(a + b, b),
{
    lemma_among(a, b, Seq::empty());
    assert(a + b + Seq::empty() =~= a + b);
}

proof fn lemma_within(a: Seq<char>, b: Seq<char>, x: Seq<char>)
    requires
        contains_text(b, x),
    ensures
        contains_text(a + b, x),
{
    let i = choose|i: int| text_at(b, x, i);
    assert((a + b).subrange(a.len() + i, a.len() + i + x.len()) =~= b.subrange(i, i + x.len()));
    assert(text_at(a + b, x, a.len() + i));
}

proof fn lemma_located(what: Seq<char>, path: Seq<char>, reason: Seq<char>)
    ensures
        contains_text(at_path(what, path, reason), path),
        contains_text(at_path(what, path, reason), reason),
{
    lemma_among(what + " at "@, path, ": "@ + reason);
    assert(what + " at "@ + path + (": "@ + reason) =~= at_path(what, path, reason));
    lemma_last(what + " at "@ + path + ": "@, reason);
}

proof fn lemma_versions(what: Seq<char>, path: Seq<char>, expected: u32, found: u32)
    ensures
        contains_text(at_path(what, path, versions(expected, found)), path),
        contains_text(at_path(what, path, versions(expected, found)), dec_text(expected as nat)),
        contains_text(at_path(what, path, versions(expected, found)), dec_text(found as nat)),
{
    let said = versions(expected, found);
    lemma_located(what, path, said);
    lemma_among("expected "@, dec_text(expected as nat), ", found "@ + dec_text(found as nat));
    assert("expected "@ + dec_text(expected as nat) + (", found "@ + dec_text(found as nat)) =~= said);
    lemma_last("expected "@ + dec_text(expected as nat) + ", found "@, dec_text(found as nat));
    lemma_within(what + " at "@ + path + ": "@, said, dec_text(expected as nat));
    lemma_within(what + " at "@ + path + ": "@, said, dec_text(found as nat));
}

/// A text says what an error holds: where, why, and which.
pub open spec fn says_all(e: EngineError, s: Seq<char>) -> bool {
    match e {
        EngineError::Io { path, reason }
        | EngineError::CorruptSst { path, reason }
        | EngineError::CorruptSstHeader { path, reason }
        | EngineError::UnsupportedSstHeaderVersion { path, reason }
        | EngineError::CorruptSstFooter { path, reason }
        | EngineError::UnsupportedSstFooterVersion { path, reason }
        | EngineError::CorruptSstBlockIndex { path, reason }
        | EngineError::UnsupportedSstBlockIndexVersion { path, reason }
        | EngineError::CorruptSstBloomFilter { path, reason }
        | EngineError::UnsupportedSstBloomFilterVersion { path, reason }
        | EngineError::CorruptSstDataBlock { path, reason }
        | EngineError::UnsupportedSstDataBlockVersion { path, reason }
        | EngineError::CorruptEncryptedSstBlock { path, reason }
        | EngineError::UnsupportedEncryptedSstBlockVersion { path, reason }
        | EngineError::CorruptWal { path, reason }
        | EngineError::CorruptStoreMeta { path, reason }
        | EngineError::CorruptCryptoMeta { path, reason }
        | EngineError::CorruptGenerationMeta { path, reason }
        | EngineError::CorruptSstManifest { path, reason } => contains_text(s, path@) && contains_text(s, reason@),
        EngineError::MissingEncryptionKey { path }
        | EngineError::WrongEncryptionKey { path }
        | EngineError::PlaintextStoreKeySupplied { path }
        | EngineError::NotEncrypted { path }
        | EngineError::StoreLocked { path } => contains_text(s, path@),
        EngineError::UnsupportedStoreFormat { path, expected, found }
        | EngineError::UnsupportedFormatVersion { path, expected, found } => contains_text(s, path@)
            && contains_text(s, dec_text(expected as nat)) && contains_text(
            s,
            dec_text(found as nat),
        ),
        EngineError::CorruptMemoryRecord { reason }
        | EngineError::CorruptVectorNode { reason } => contains_text(s, reason@),
        EngineError::GraphKeyTooLong { field, len }
        | EngineError::MemoryKeyTooLong { field, len } =>
            contains_text(s, field@) && contains_text(s, dec_text(len as nat)),
        EngineError::MissingLiveSst { id, path } => contains_text(s, path@) && contains_text(s, dec_text(id as nat)),
        EngineError::VersionEditMissingInput { id } => contains_text(s, dec_text(id as nat)),
    }
}

proof fn lemma_says_all(e: EngineError)
    ensures
        says_all(e, e.text()),
{
    match e {
        EngineError::Io { path, reason } => {
            lemma_located("input/output failed"@, path@, reason@);
        },
        EngineError::CorruptSst { path, reason } => {
            lemma_located("corrupt table"@, path@, reason@);
        },
        EngineError::CorruptSstHeader { path, reason } => {
            lemma_located("corrupt table header"@, path@, reason@);
        },
        EngineError::UnsupportedSstHeaderVersion { path, reason } => {
            lemma_located("unsupported table header version"@, path@, reason@);
        },
        EngineError::CorruptSstFooter { path, reason } => {
            lemma_located("corrupt table footer"@, path@, reason@);
        },
        EngineError::UnsupportedSstFooterVersion { path, reason } => {
            lemma_located("unsupported table footer version"@, path@, reason@);
        },
        EngineError::CorruptSstBlockIndex { path, reason } => {
            lemma_located("corrupt table block index"@, path@, reason@);
        },
        EngineError::UnsupportedSstBlockIndexVersion { path, reason } => {
            lemma_located("unsupported table block index version"@, path@, reason@);
        },
        EngineError::CorruptSstBloomFilter { path, reason } => {
            lemma_located("corrupt table bloom filter"@, path@, reason@);
        },
        EngineError::UnsupportedSstBloomFilterVersion { path, reason } => {
            lemma_located("unsupported table bloom filter version"@, path@, reason@);
        },
        EngineError::CorruptSstDataBlock { path, reason } => {
            lemma_located("corrupt table data block"@, path@, reason@);
        },
        EngineError::UnsupportedSstDataBlockVersion { path, reason } => {
            lemma_located("unsupported table data block version"@, path@, reason@);
        },
        EngineError::CorruptEncryptedSstBlock { path, reason } => {
            lemma_located("corrupt sealed table section"@, path@, reason@);
        },
        EngineError::UnsupportedEncryptedSstBlockVersion { path, reason } => {
            lemma_located("unsupported sealed table section version"@, path@, reason@);
        },
        EngineError::CorruptWal { path, reason } => {
            lemma_located("corrupt log"@, path@, reason@);
        },
        EngineError::CorruptStoreMeta { path, reason } => {
            lemma_located("corrupt store metadata"@, path@, reason@);
        },
        EngineError::CorruptCryptoMeta { path, reason } => {
            lemma_located("corrupt encryption metadata"@, path@, reason@);
        },
        EngineError::CorruptGenerationMeta { path, reason } => {
            lemma_located("corrupt generation pointer"@, path@, reason@);
        },
        EngineError::CorruptSstManifest { path, reason } => {
            lemma_located("corrupt manifest"@, path@, reason@);
        },
        EngineError::MissingEncryptionKey { path } => {
            lemma_among(Seq::empty(), path@, ": the store is encrypted and no key was supplied"@);
            assert(Seq::empty() + path@ =~= path@);
        },
        EngineError::WrongEncryptionKey { path } => {
            lemma_among(Seq::empty(), path@, ": the key does not open the store"@);
            assert(Seq::empty() + path@ =~= path@);
        },
        EngineError::PlaintextStoreKeySupplied { path } => {
            lemma_among(Seq::empty(), path@, ": a key was supplied for a plaintext store"@);
            assert(Seq::empty() + path@ =~= path@);
        },
        EngineError::NotEncrypted { path } => {
            lemma_among(Seq::empty(), path@, ": the store is not encrypted"@);
            assert(Seq::empty() + path@ =~= path@);
        },
        EngineError::StoreLocked { path } => {
            lemma_among(Seq::empty(), path@, ": the store is held by another process"@);
            assert(Seq::empty() + path@ =~= path@);
        },
        EngineError::UnsupportedStoreFormat { path, expected, found } => {
            lemma_versions("unsupported store format"@, path@, expected, found);
        },
        EngineError::UnsupportedFormatVersion { path, expected, found } => {
            lemma_versions("unsupported record version"@, path@, expected, found);
        },
        EngineError::CorruptMemoryRecord { reason } => {
            lemma_last("corrupt memory record: "@, reason@);
        },
        EngineError::CorruptVectorNode { reason } => {
            lemma_last("corrupt vector node: "@, reason@);
        },
        EngineError::GraphKeyTooLong { field, len } => {
            lemma_among("graph key field "@, field@, " of "@ + dec_text(len as nat) + " bytes is too long"@);
            lemma_among("graph key field "@ + field@ + " of "@, dec_text(len as nat), " bytes is too long"@);
            assert("graph key field "@ + field@ + (" of "@ + dec_text(len as nat) + " bytes is too long"@) =~= e.text());
        },
        EngineError::MemoryKeyTooLong { field, len } => {
            lemma_among("memory key field "@, field@, " of "@ + dec_text(len as nat) + " bytes is too long"@);
            lemma_among("memory key field "@ + field@ + " of "@, dec_text(len as nat), " bytes is too long"@);
            assert("memory key field "@ + field@ + (" of "@ + dec_text(len as nat) + " bytes is too long"@) =~= e.text());
        },
        EngineError::MissingLiveSst { id, path } => {
            let rest = ": live table "@ + dec_text(id as nat) + " is not on disk"@;
            lemma_among(Seq::empty(), path@, rest);
            assert(Seq::empty() + path@ + rest =~= e.text());
            lemma_among(path@ + ": live table "@, dec_text(id as nat), " is not on disk"@);
        },
        EngineError::VersionEditMissingInput { id } => {
            lemma_among("version edit deletes table "@, dec_text(id as nat), ", which is not live"@);
        },
    }
}

/// The words for an error hold everything that the error does.
pub proof fn a_message_tells_where_and_why(e: &EngineError, s: String)
    requires
        call_ensures(EngineError::message, (e,), s),
    ensures
        says_all(*e, s@),
{
    lemma_says_all(*e);
}

} // verus!
