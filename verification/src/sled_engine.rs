//! The engine that keeps its data in an embedded `sled` database.
use vstd::prelude::*;
use vstd::utf8::{decode_utf8, encode_utf8, valid_utf8};

use crate::engine::{
    check_engine_tag, join, join_path, sled_engine_tag, sled_tag, tag_check, KvsEngine, TagCheck,
};
use crate::error::{KvStoreError, Result};

verus! {

/// The database handle of the `sled` crate.
#[verifier::external_type_specification]
#[verifier::external_body]
pub struct ExDb(sled::Db);

/// What a `sled` database holds: its keys and their values.
pub uninterp spec fn sled_contents(db: sled::Db) -> Map<Seq<u8>, Seq<u8>>;

/// The directory that a `sled` database was opened in (the path of its
/// configuration).
pub uninterp spec fn sled_db_dir(db: sled::Db) -> Seq<char>;

/// `sled::open`: opens (or creates) the database in the directory `path`,
/// which its configuration records. Nothing is stated of what it holds: that
/// was on disk.
#[verifier::external_body]
fn sled_open(path: &str) -> (db: core::result::Result<sled::Db, String>)
    ensures
        db matches Ok(d) ==> sled_db_dir(d) == path@,
{
    match sled::open(path) {
        Ok(db) => Ok(db),
        Err(e) => Err(format!("{}", e)),
    }
}

/// `Tree::get` (through the database's default tree): the value of `key`,
/// if the database holds it.
#[verifier::external_body]
fn sled_get(db: &sled::Db, key: &[u8]) -> (value: core::result::Result<Option<Vec<u8>>, String>)
    ensures
        value matches Ok(v) ==> match v {
            Some(bytes) => sled_contents(*db).contains_key(key@) && sled_contents(*db)[key@]
                == bytes@,
            None => !sled_contents(*db).contains_key(key@),
        },
{
    match db.get(key) {
        Ok(Some(v)) => Ok(Some(v.to_vec())),
        Ok(None) => Ok(None),
        Err(e) => Err(format!("{}", e)),
    }
}

/// `Tree::insert`: sets `key` to `value`.
#[verifier::external_body]
fn sled_insert(db: &mut sled::Db, key: &[u8], value: &[u8]) -> (result: core::result::Result<
    (),
    String,
>)
    ensures
        result is Ok ==> sled_contents(*final(db)) == sled_contents(*old(db)).insert(key@, value@),
        sled_db_dir(*final(db)) == sled_db_dir(*old(db)),
{
    match db.insert(key, value) {
        Ok(_) => Ok(()),
        Err(e) => Err(format!("{}", e)),
    }
}

/// `Tree::remove`: removes `key`, giving back the value it had.
#[verifier::external_body]
fn sled_remove(db: &mut sled::Db, key: &[u8]) -> (result: core::result::Result<
    Option<Vec<u8>>,
    String,
>)
    ensures
        result matches Ok(prev) ==> sled_contents(*final(db)) == sled_contents(*old(db)).remove(
            key@,
        ) && match prev {
            Some(bytes) => sled_contents(*old(db)).contains_key(key@) && sled_contents(
                *old(db),
            )[key@] == bytes@,
            None => !sled_contents(*old(db)).contains_key(key@),
        },
        sled_db_dir(*final(db)) == sled_db_dir(*old(db)),
{
    match db.remove(key) {
        Ok(Some(v)) => Ok(Some(v.to_vec())),
        Ok(None) => Ok(None),
        Err(e) => Err(format!("{}", e)),
    }
}

/// `Tree::flush` (through the database): writes dirty buffers to disk. It
/// changes nothing of what the database holds.
#[verifier::external_body]
fn sled_flush(db: &mut sled::Db) -> (result: core::result::Result<(), String>)
    ensures
        sled_contents(*final(db)) == sled_contents(*old(db)),
        sled_db_dir(*final(db)) == sled_db_dir(*old(db)),
{
    match db.flush() {
        Ok(_) => Ok(()),
        Err(e) => Err(format!("{}", e)),
    }
}

/// `String::from_utf8` of the standard library: the string whose UTF-8
/// encoding the bytes are, if they are valid UTF-8.
#[verifier::external_body]
pub(crate) fn string_from_utf8(bytes: Vec<u8>) -> (s: Option<String>)
    ensures
        s is Some <==> valid_utf8(bytes@),
        s matches Some(t) ==> t@ == decode_utf8(bytes@),
{
    match String::from_utf8(bytes) {
        Ok(s) => Some(s),
        Err(_) => None,
    }
}

/// The `sled` engine: a database in the directory `sled` of the working
/// directory.
pub struct SledStore {
    db: sled::Db,
    work_dir: String,
}

/// The directory of the database inside the working directory `work_dir`.
pub open spec fn sled_dir(work_dir: Seq<char>) -> Seq<char> {
    join_path(work_dir, seq!['s', 'l', 'e', 'd'])
}

impl SledStore {
    /// What the engine holds: UTF-8 keys and their values.
    pub closed spec fn contents(&self) -> Map<Seq<u8>, Seq<u8>> {
        sled_contents(self.db)
    }

    /// The working directory.
    pub closed spec fn work_dir(&self) -> Seq<char> {
        self.work_dir@
    }

    /// The directory that the database was opened in.
    pub closed spec fn db_dir(&self) -> Seq<char> {
        sled_db_dir(self.db)
    }

    /// Opens the engine in `work_dir`, whose engine tag file holds `tag_file`:
    /// opens the database in `work_dir/sled` (a failure of `sled` is a
    /// `Sled` error), then accepts or refuses it as `open_with_db` does.
    pub fn open(work_dir: &String, tag_file: &[u8]) -> (store: Result<SledStore>)
        ensures
            match store {
                Ok(s) => s.work_dir() == work_dir@ && s.db_dir() == sled_dir(work_dir@)
                    && tag_check(tag_file@, sled_tag()) != TagCheck::Mismatch,
                Err(KvStoreError::EngineMismatch) => tag_check(tag_file@, sled_tag())
                    == TagCheck::Mismatch,
                Err(KvStoreError::Sled(_)) => true,
                Err(_) => false,
            },
    {
        let mut name = String::new();
        crate::decimal::push_char(&mut name, 's');
        crate::decimal::push_char(&mut name, 'l');
        crate::decimal::push_char(&mut name, 'e');
        crate::decimal::push_char(&mut name, 'd');
        assert(name@ =~= seq!['s', 'l', 'e', 'd']);
        let dir = join(work_dir, &name);
        let db = match sled_open(dir.as_str()) {
            Ok(db) => db,
            Err(msg) => {
                return Err(KvStoreError::Sled(msg));
            },
        };
        Self::open_with_db(db, work_dir, tag_file)
    }

    /// Accepts or refuses the database `db`, opened in the directory of the
    /// working directory `work_dir`, by the working directory's engine tag
    /// file `tag_file`: the engine on success, `EngineMismatch` when the tag
    /// file names another engine.
    pub fn open_with_db(db: sled::Db, work_dir: &String, tag_file: &[u8]) -> (store: Result<
        SledStore,
    >)
        ensures
            store is Ok <==> tag_check(tag_file@, sled_tag()) != TagCheck::Mismatch,
            match store {
                Ok(s) => s.work_dir() == work_dir@ && s.db_dir() == sled_db_dir(db)
                    && s.contents() == sled_contents(db),
                Err(e) => e == KvStoreError::EngineMismatch,
            },
    {
        let tag = sled_engine_tag();
        match check_engine_tag(tag_file, tag.as_slice()) {
            TagCheck::Mismatch => Err(KvStoreError::EngineMismatch),
            _ => Ok(SledStore { db, work_dir: work_dir.clone() }),
        }
    }
}

/// The answer to a read of a key whose stored value is `raw` (`None` when
/// the key is not there): the value as a string, or `Utf8` when the stored
/// bytes are not UTF-8.
pub fn value_of(raw: Option<Vec<u8>>) -> (value: Result<Option<String>>)
    ensures
        match raw {
            None => value matches Ok(None),
            Some(bytes) => if valid_utf8(bytes@) {
                value matches Ok(Some(s)) && encode_utf8(s@) == bytes@
            } else {
                value matches Err(e) && e == KvStoreError::Utf8
            },
        },
{
    match raw {
        None => Ok(None),
        Some(bytes) => {
            let ghost b = bytes@;
            match string_from_utf8(bytes) {
                Some(s) => {
                    proof {
                        vstd::utf8::decode_utf8_encode_utf8(b);
                    }
                    Ok(Some(s))
                },
                None => Err(KvStoreError::Utf8),
            }
        },
    }
}

/// The answer to a removal whose key held the value `prev` before (`None`
/// when the key was not there): success when it was there, `KeyNotFound`
/// otherwise.
pub fn removal_result(prev: &Option<Vec<u8>>) -> (result: Result<()>)
    ensures
        result is Ok <==> prev is Some,
        result matches Err(e) ==> e == KvStoreError::KeyNotFound,
{
    if prev.is_some() {
        Ok(())
    } else {
        Err(KvStoreError::KeyNotFound)
    }
}

impl KvsEngine for SledStore {
    open spec fn obeys_model() -> bool {
        true
    }

    /// A failure of the `sled` database.
    open spec fn engine_failure(e: KvStoreError) -> bool {
        e is Sled
    }

    /// What the database holds.
    open spec fn model(&self) -> Map<Seq<u8>, Seq<u8>> {
        self.contents()
    }

    /// Sets `key` to `value` and flushes the database.
    fn set(&mut self, key: String, value: String) -> (result: Result<()>)
        ensures
            result is Ok ==> final(self).contents() == old(self).contents().insert(
                encode_utf8(key@),
                encode_utf8(value@),
            ),
            match result {
                Ok(_) => true,
                Err(KvStoreError::Sled(_)) => true,
                Err(_) => false,
            },
            final(self).work_dir() == old(self).work_dir(),
            final(self).db_dir() == old(self).db_dir(),
    {
        if let Err(msg) = sled_insert(&mut self.db, key.as_str().as_bytes(), value.as_str().as_bytes()) {
            return Err(KvStoreError::Sled(msg));
        }
        if let Err(msg) = sled_flush(&mut self.db) {
            return Err(KvStoreError::Sled(msg));
        }
        Ok(())
    }

    /// The value of `key`: `None` when the database does not hold it,
    /// `Utf8` when the value held is not UTF-8.
    fn get(&mut self, key: String) -> (result: Result<Option<String>>)
        ensures
            *final(self) == *old(self),
            match result {
                Ok(Some(v)) => old(self).contents().contains_key(encode_utf8(key@)) && encode_utf8(
                    v@,
                ) == old(self).contents()[encode_utf8(key@)],
                Ok(None) => !old(self).contents().contains_key(encode_utf8(key@)),
                Err(KvStoreError::Utf8) => old(self).contents().contains_key(encode_utf8(key@))
                    && !valid_utf8(old(self).contents()[encode_utf8(key@)]),
                Err(KvStoreError::Sled(_)) => true,
                Err(_) => false,
            },
    {
        match sled_get(&self.db, key.as_str().as_bytes()) {
            Err(msg) => Err(KvStoreError::Sled(msg)),
            Ok(raw) => value_of(raw),
        }
    }

    /// Removes `key` and flushes the database; fails with `KeyNotFound`
    /// when the database did not hold the key.
    fn remove(&mut self, key: String) -> (result: Result<()>)
        ensures
            match result {
                Ok(_) => old(self).contents().contains_key(encode_utf8(key@))
                    && final(self).contents() == old(self).contents().remove(encode_utf8(key@)),
                Err(KvStoreError::KeyNotFound) => !old(self).contents().contains_key(
                    encode_utf8(key@),
                ) && final(self).contents() == old(self).contents(),
                Err(KvStoreError::Sled(_)) => true,
                Err(_) => false,
            },
            final(self).work_dir() == old(self).work_dir(),
            final(self).db_dir() == old(self).db_dir(),
    {
        let prev = match sled_remove(&mut self.db, key.as_str().as_bytes()) {
            Err(msg) => {
                return Err(KvStoreError::Sled(msg));
            },
            Ok(prev) => prev,
        };
        if let Err(msg) = sled_flush(&mut self.db) {
            return Err(KvStoreError::Sled(msg));
        }
        proof {
            if prev is None {
                assert(old(self).contents().remove(encode_utf8(key@)) =~= old(self).contents());
            }
        }
        removal_result(&prev)
    }
}

} // verus!
