//! The storage-engine interface and the engine backed by sled, an embedded
//! database.
use vstd::prelude::*;
use vstd::utf8::*;
use crate::codec::utf8_text;
use crate::error::KvsError;

verus! {

/// A key-value storage engine. Handles share one store, so its operations
/// take `&self`.
pub trait KvsEngine {
    /// Binds `key` to `value`.
    fn set(&self, key: String, value: String) -> Result<(), KvsError>;

    /// The value bound to `key`, if any.
    fn get(&self, key: String) -> Result<Option<String>, KvsError>;

    /// Unbinds `key`; fails with `KeyNotFound` where it holds no value.
    fn remove(&self, key: String) -> Result<(), KvsError>;
}

/// `sled::Db`, an open database, opaque.
#[verifier::external_type_specification]
#[verifier::external_body]
pub struct ExDb(sled::Db);

/// `sled::Error`, a failure of the database, opaque.
#[verifier::external_type_specification]
#[verifier::external_body]
pub struct ExSledError(sled::Error);

/// Relies on the derived `Clone` of `sled::Db`: another handle on the same
/// database.
pub assume_specification[ <sled::Db as Clone>::clone ](db: &sled::Db) -> sled::Db;

/// Relies on `sled::open`: opens, or creates, the database at the path.
#[verifier::external_body]
fn sled_open(path: &str) -> Result<sled::Db, sled::Error> {
    sled::open(path)
}

/// Relies on `sled::Tree::insert`: stores the value's UTF-8 bytes under the
/// key's.
#[verifier::external_body]
fn db_insert(db: &sled::Db, key: &String, value: &String) -> Result<(), sled::Error> {
    db.insert(key.as_bytes(), value.as_bytes()).map(|_| ())
}

/// Relies on `sled::Tree::get`: the bytes stored under the key's, if any.
#[verifier::external_body]
fn db_get(db: &sled::Db, key: &String) -> Result<Option<Vec<u8>>, sled::Error> {
    db.get(key.as_bytes()).map(|found| found.map(|v| v.to_vec()))
}

/// Relies on `sled::Tree::remove`: takes out the bytes stored under the
/// key's and hands them back, if there were any.
#[verifier::external_body]
fn db_remove(db: &sled::Db, key: &String) -> Result<Option<Vec<u8>>, sled::Error> {
    db.remove(key.as_bytes()).map(|found| found.map(|v| v.to_vec()))
}

/// Relies on `sled::Tree::flush`: writes buffered changes to disk.
#[verifier::external_body]
fn db_flush(db: &sled::Db) -> Result<(), sled::Error> {
    db.flush().map(|_| ())
}

/// Relies on the `Display` of `sled::Error`: a text that describes it.
#[verifier::external_body]
fn sled_error_text(e: &sled::Error) -> String {
    e.to_string()
}

/// The error of the store for a failure of the database.
fn sled_failure(e: sled::Error) -> (r: KvsError)
    ensures
        r is Sled,
{
    KvsError::Sled(sled_error_text(&e))
}

/// The value read back from stored bytes: absent stays absent, UTF-8 bytes
/// give their text, other bytes fail with `Utf8`.
pub fn stored_value(found: Option<Vec<u8>>) -> (r: Result<Option<String>, KvsError>)
    ensures
        match found {
            None => r == Ok::<Option<String>, KvsError>(None),
            Some(b) => if valid_utf8(b@) {
                r is Ok && r->Ok_0 is Some && r->Ok_0->Some_0@ == decode_utf8(b@)
            } else {
                r == Err::<Option<String>, KvsError>(KvsError::Utf8)
            },
        },
{
    match found {
        None => Ok(None),
        Some(b) => match utf8_text(b.as_slice()) {
            Some(t) => Ok(Some(t)),
            None => Err(KvsError::Utf8),
        },
    }
}

/// The outcome of a removal from what it took out: nothing means the key
/// held no value.
pub fn removal_outcome(taken: Option<Vec<u8>>) -> (r: Result<(), KvsError>)
    ensures
        taken is None <==> r == Err::<(), KvsError>(KvsError::KeyNotFound),
        taken is Some <==> r is Ok,
{
    match taken {
        None => Err(KvsError::KeyNotFound),
        Some(_) => Ok(()),
    }
}

/// An engine that keeps its data in a sled database. Clones are handles
/// on the same database.
#[derive(Clone)]
pub struct SledKvsEngine {
    db: sled::Db,
}

impl SledKvsEngine {
    /// The database this engine works on.
    pub closed spec fn db(&self) -> sled::Db {
        self.db
    }

    /// An engine on an open database.
    pub fn new(db: sled::Db) -> (r: Result<SledKvsEngine, KvsError>)
        ensures
            r is Ok,
            r->Ok_0.db() == db,
    {
        Ok(SledKvsEngine { db })
    }

    /// An engine on the database at `path`, opened or created there.
    pub fn open(path: &str) -> (r: Result<SledKvsEngine, KvsError>)
        ensures
            r is Err ==> r->Err_0 is Sled,
    {
        SledKvsEngine::from_opened(sled_open(path))
    }

    /// The engine for the outcome of opening a database: on that database
    /// where it opened, else the failure as a `Sled` error.
    pub fn from_opened(opened: Result<sled::Db, sled::Error>) -> (r: Result<SledKvsEngine, KvsError>)
        ensures
            r is Ok <==> opened is Ok,
            opened is Ok ==> r->Ok_0.db() == opened->Ok_0,
            opened is Err ==> r->Err_0 is Sled,
    {
        match opened {
            Ok(db) => Ok(SledKvsEngine { db }),
            Err(e) => Err(sled_failure(e)),
        }
    }
}

impl KvsEngine for SledKvsEngine {
    fn set(&self, key: String, value: String) -> Result<(), KvsError> {
        if let Err(e) = db_insert(&self.db, &key, &value) {
            return Err(sled_failure(e));
        }
        match db_flush(&self.db) {
            Ok(()) => Ok(()),
            Err(e) => Err(sled_failure(e)),
        }
    }

    fn get(&self, key: String) -> Result<Option<String>, KvsError> {
        match db_get(&self.db, &key) {
            Ok(found) => stored_value(found),
            Err(e) => Err(sled_failure(e)),
        }
    }

    fn remove(&self, key: String) -> Result<(), KvsError> {
        let taken = match db_remove(&self.db, &key) {
            Ok(t) => t,
            Err(e) => return Err(sled_failure(e)),
        };
        removal_outcome(taken)?;
        match db_flush(&self.db) {
            Ok(()) => Ok(()),
            Err(e) => Err(sled_failure(e)),
        }
    }
}

} // verus!
