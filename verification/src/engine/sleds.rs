//! The engine on top of the embedded `sled` store.

use crate::engine::KvsEngine;
use crate::kvs_error::KvsError;
use std::string::FromUtf8Error;
use vstd::prelude::*;
use vstd::utf8::{decode_utf8, valid_utf8};

verus! {

/// `sled::Db`, the handle to an opened store, taken as it is.
#[verifier::external_type_specification]
#[verifier::external_body]
pub struct ExSledDb(sled::Db);

/// `sled::Error`, taken as it is.
#[verifier::external_type_specification]
#[verifier::external_body]
pub struct ExSledError(sled::Error);

/// `std::string::FromUtf8Error`, taken as it is.
#[verifier::external_type_specification]
#[verifier::external_body]
pub struct ExFromUtf8Error(FromUtf8Error);

/// `Clone` for `sled::Db`: a handle to the same store. Nothing is stated of it here.
pub assume_specification[ <sled::Db as Clone>::clone ](db: &sled::Db) -> sled::Db;

/// `Tree::insert` on the default tree of the store, with the string's bytes
/// as the value. What it returns depends on the files of the store.
#[verifier::external_body]
fn db_insert(db: &sled::Db, key: String, value: String) -> Result<(), sled::Error> {
    db.insert(key, value.into_bytes()).map(|_| ())
}

/// `Tree::get` on the default tree of the store, with the bytes copied out.
/// What it returns depends on the files of the store.
#[verifier::external_body]
fn db_get(db: &sled::Db, key: String) -> Result<Option<Vec<u8>>, sled::Error> {
    db.get(key).map(|found| found.map(|bytes| bytes.to_vec()))
}

/// `Tree::remove` on the default tree of the store, with the bytes that the
/// key had copied out. What it returns depends on the files of the store.
#[verifier::external_body]
fn db_remove(db: &sled::Db, key: String) -> Result<Option<Vec<u8>>, sled::Error> {
    db.remove(key).map(|found| found.map(|bytes| bytes.to_vec()))
}

/// `Tree::flush` on the default tree of the store.
#[verifier::external_body]
fn db_flush(db: &sled::Db) -> Result<usize, sled::Error> {
    db.flush()
}

/// The text of a `sled::Error`, as its `Display` gives it.
#[verifier::external_body]
fn sled_error_text(e: &sled::Error) -> String {
    e.to_string()
}

/// `String::from_utf8`: the string that the bytes spell; an error if not valid UTF-8.
#[verifier::external_body]
fn string_from_utf8(bytes: Vec<u8>) -> (r: Result<String, FromUtf8Error>)
    ensures
        r is Ok <==> valid_utf8(bytes@),
        r is Ok ==> r.unwrap()@ == decode_utf8(bytes@),
{
    String::from_utf8(bytes)
}

/// The text of a `FromUtf8Error`, as its `Display` gives it.
#[verifier::external_body]
fn utf8_error_text(e: &FromUtf8Error) -> String {
    e.to_string()
}

/// What a `get` makes of the bytes that the store holds for a key: no value
/// where it holds none, the string that the bytes spell, `Utf8Error` where
/// they are not valid UTF-8.
pub fn stored_text(found: Option<Vec<u8>>) -> (r: Result<Option<String>, KvsError>)
    ensures
        match found {
            None => r == Ok::<Option<String>, KvsError>(None),
            Some(bytes) => if valid_utf8(bytes@) {
                r is Ok && r->Ok_0 is Some && r->Ok_0->Some_0@ == decode_utf8(bytes@)
            } else {
                r is Err && r->Err_0 is Utf8Error
            },
        },
{
    match found {
        None => Ok(None),
        Some(bytes) => match string_from_utf8(bytes) {
            Ok(text) => Ok(Some(text)),
            Err(e) => Err(KvsError::Utf8Error(utf8_error_text(&e))),
        },
    }
}

/// What a `remove` makes of what the key held: `KeyNotFound` where it held nothing.
pub fn removed(found: Option<Vec<u8>>) -> (r: Result<(), KvsError>)
    ensures
        found is Some ==> r is Ok,
        found is None ==> r is Err && r->Err_0 is KeyNotFound,
{
    match found {
        Some(_) => Ok(()),
        None => Err(KvsError::KeyNotFound),
    }
}

/// The engine that keeps its data in a `sled` store.
#[derive(Clone)]
pub struct SledStore {
    db: sled::Db,
}

impl SledStore {
    /// The engine on the opened store `db`: it keeps that handle.
    pub fn new(db: sled::Db) -> (r: Self)
        ensures
            r.handle() == db,
    {
        SledStore { db }
    }
}

impl KvsEngine for SledStore {
    /// Stores `value` under `key` and flushes. Fails with `SledErr` where the
    /// store does.
    fn set(&self, key: String, value: String) -> (r: Result<(), KvsError>)
        ensures
            r is Err ==> r->Err_0 is SledErr,
    {
        match sled_outcome(db_insert(&self.db, key, value)) {
            Ok(()) => {},
            Err(e) => {
                return Err(e);
            },
        }
        match sled_outcome(db_flush(&self.db)) {
            Ok(_) => Ok(()),
            Err(e) => Err(e),
        }
    }

    /// Reads the value of `key`: `stored_text` of what the store holds for
    /// it. Fails with `SledErr` where the store does.
    fn get(&self, key: String) -> (r: Result<Option<String>, KvsError>)
        ensures
            r is Err ==> r->Err_0 is SledErr || r->Err_0 is Utf8Error,
    {
        match sled_outcome(db_get(&self.db, key)) {
            Ok(found) => stored_text(found),
            Err(e) => Err(e),
        }
    }

    /// Removes `key` and flushes: `removed` of what the store held for it.
    /// Fails with `SledErr` where the store does.
    fn remove(&self, key: String) -> (r: Result<(), KvsError>)
        ensures
            r is Err ==> r->Err_0 is SledErr || r->Err_0 is KeyNotFound,
    {
        let found = match sled_outcome(db_remove(&self.db, key)) {
            Ok(found) => found,
            Err(e) => {
                return Err(e);
            },
        };
        match removed(found) {
            Ok(()) => {},
            Err(e) => {
                return Err(e);
            },
        }
        match sled_outcome(db_flush(&self.db)) {
            Ok(_) => Ok(()),
            Err(e) => Err(e),
        }
    }
}

impl SledStore {
    /// The handle to the `sled` store that the engine keeps its data in.
    pub closed spec fn handle(&self) -> sled::Db {
        self.db
    }
}

/// What the engine makes of what a call into the store returned: what the
/// store gave where the call went through, a `SledErr` with the text of the
/// store's error where it did not.
pub fn sled_outcome<T>(result: Result<T, sled::Error>) -> (r: Result<T, KvsError>)
    ensures
        match result {
            Ok(given) => r == Ok::<T, KvsError>(given),
            Err(_) => r is Err && r->Err_0 is SledErr,
        },
{
    match result {
        Ok(given) => Ok(given),
        Err(e) => Err(KvsError::SledErr(sled_error_text(&e))),
    }
}

} // verus!
