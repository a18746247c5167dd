use vstd::prelude::*;
use vstd::utf8::{decode_utf8, encode_utf8, valid_utf8};

use crate::error::DbError;

verus! {

/// The database handle of `sled`.
#[verifier::external_type_specification]
#[verifier::external_body]
pub struct ExDb(sled::Db);

/// The key/value pairs that the default tree of the database `db` holds.
/// A `sled::Db` is `Clone` over shared state, so writes through a clone change
/// this tree too; the wrappers' contracts assume that no other handle writes
/// to the tree between and during the calls made through this one.
pub uninterp spec fn sled_contents(db: sled::Db) -> Map<Seq<u8>, Seq<u8>>;

/// Calls `sled::Tree::insert` on the default tree of `db`. As its
/// documentation says, it sets `key` to `value` and returns the value `key`
/// had. Nothing is stated of the tree after an error.
#[verifier::external_body]
fn db_insert(db: &mut sled::Db, key: &[u8], value: Vec<u8>) -> (r: Result<
    Option<Vec<u8>>,
    sled::Error,
>)
    ensures
        r matches Ok(prev) ==> {
            &&& sled_contents(*final(db)) == sled_contents(*old(db)).insert(key@, value@)
            &&& prev matches Some(p) ==> sled_contents(*old(db)).contains_key(key@) && p@
                == sled_contents(*old(db))[key@]
            &&& prev is None ==> !sled_contents(*old(db)).contains_key(key@)
        },
{
    match db.insert(key, value) {
        Ok(Some(v)) => Ok(Some(v.to_vec())),
        Ok(None) => Ok(None),
        Err(e) => Err(e),
    }
}

/// Calls `sled::Tree::get` on the default tree of `db`: the value of `key`,
/// if the tree holds `key`.
#[verifier::external_body]
fn db_get(db: &sled::Db, key: &[u8]) -> (r: Result<Option<Vec<u8>>, sled::Error>)
    ensures
        r matches Ok(Some(v)) ==> sled_contents(*db).contains_key(key@) && v@ == sled_contents(
            *db,
        )[key@],
        r matches Ok(None) ==> !sled_contents(*db).contains_key(key@),
{
    match db.get(key) {
        Ok(Some(v)) => Ok(Some(v.to_vec())),
        Ok(None) => Ok(None),
        Err(e) => Err(e),
    }
}

/// Calls `sled::Tree::remove` on the default tree of `db`. As its
/// documentation says, it deletes `key` and returns the value `key` had.
/// Nothing is stated of the tree after an error.
#[verifier::external_body]
fn db_remove(db: &mut sled::Db, key: &[u8]) -> (r: Result<Option<Vec<u8>>, sled::Error>)
    ensures
        r matches Ok(prev) ==> {
            &&& sled_contents(*final(db)) == sled_contents(*old(db)).remove(key@)
            &&& prev matches Some(p) ==> sled_contents(*old(db)).contains_key(key@) && p@
                == sled_contents(*old(db))[key@]
            &&& prev is None ==> !sled_contents(*old(db)).contains_key(key@)
        },
{
    match db.remove(key) {
        Ok(Some(v)) => Ok(Some(v.to_vec())),
        Ok(None) => Ok(None),
        Err(e) => Err(e),
    }
}

/// Calls `sled::Tree::flush` on the default tree of `db`, which writes dirty
/// buffers to disk and leaves what the tree holds as it was. Whether it
/// succeeds depends on the disk.
#[verifier::external_body]
fn db_flush(db: &sled::Db) -> (r: Result<usize, sled::Error>) {
    db.flush()
}

/// Calls `String::from_utf8`, which, as documented, succeeds exactly on
/// valid UTF-8 and then holds the characters those bytes encode.
#[verifier::external_body]
fn string_from_utf8(bytes: Vec<u8>) -> (r: Result<String, std::string::FromUtf8Error>)
    ensures
        r is Ok <==> valid_utf8(bytes@),
        r matches Ok(s) ==> s@ == decode_utf8(bytes@),
{
    String::from_utf8(bytes)
}

/// What a lookup of text finds among raw key/value pairs: `None` where the
/// stored bytes are not UTF-8, else the text stored under `key`, if any.
pub open spec fn stored_text(c: Map<Seq<u8>, Seq<u8>>, key: Seq<char>) -> Option<
    Option<Seq<char>>,
> {
    let k = encode_utf8(key);
    if !c.contains_key(k) {
        Some(None)
    } else if valid_utf8(c[k]) {
        Some(Some(decode_utf8(c[k])))
    } else {
        None
    }
}

/// The text held in the bytes a lookup returned: none where nothing was
/// found, the decoded text where the bytes are UTF-8, else `FromU8Err`.
pub fn decode_value(raw: Option<Vec<u8>>) -> (r: Result<Option<String>, DbError>)
    ensures
        match raw {
            None => r matches Ok(None),
            Some(b) => if valid_utf8(b@) {
                r matches Ok(Some(s)) && s@ == decode_utf8(b@)
            } else {
                r matches Err(DbError::FromU8Err(_))
            },
        },
{
    match raw {
        None => Ok(None),
        Some(bytes) => match string_from_utf8(bytes) {
            Ok(s) => Ok(Some(s)),
            Err(e) => Err(DbError::FromU8Err(e)),
        },
    }
}

/// A storage engine backed by the default tree of a `sled` database: keys and
/// values are stored as their UTF-8 bytes.
pub struct SledEngine(sled::Db);

impl View for SledEngine {
    type V = Map<Seq<u8>, Seq<u8>>;

    closed spec fn view(&self) -> Map<Seq<u8>, Seq<u8>> {
        sled_contents(self.0)
    }
}

impl SledEngine {
    /// An engine over the default tree of `db`. Its contracts hold as long as
    /// no other handle to the same database (a clone of `db`) writes to that
    /// tree.
    pub fn new(db: sled::Db) -> (r: SledEngine)
        ensures
            r@ == sled_contents(db),
    {
        SledEngine(db)
    }

    /// Sets `key` to `value` and flushes. On success the tree maps the bytes of
    /// `key` to those of `value`; every failure is a `sled` error.
    pub fn set(&mut self, key: String, value: String) -> (r: Result<(), DbError>)
        ensures
            match r {
                Ok(()) => final(self)@ == old(self)@.insert(encode_utf8(key@), encode_utf8(value@)),
                Err(e) => e is SledErr,
            },
    {
        let k = key.as_str().as_bytes_vec();
        let v = value.as_str().as_bytes_vec();
        match db_insert(&mut self.0, k.as_slice(), v) {
            Ok(_) => {},
            Err(e) => {
                return Err(DbError::SledErr(e));
            },
        }
        match db_flush(&self.0) {
            Ok(_) => Ok(()),
            Err(e) => Err(DbError::SledErr(e)),
        }
    }

    /// The text stored under `key`, if any.
    pub fn get(&mut self, key: String) -> (r: Result<Option<String>, DbError>)
        ensures
            final(self)@ == old(self)@,
            match r {
                Ok(None) => stored_text(old(self)@, key@) == Some(None::<Seq<char>>),
                Ok(Some(s)) => stored_text(old(self)@, key@) == Some(Some(s@)),
                Err(DbError::FromU8Err(_)) => stored_text(old(self)@, key@) is None,
                Err(e) => e is SledErr,
            },
    {
        let k = key.as_str().as_bytes_vec();
        match db_get(&self.0, k.as_slice()) {
            Ok(raw) => decode_value(raw),
            Err(e) => Err(DbError::SledErr(e)),
        }
    }

    /// Removes `key` and flushes; fails with `KeyNotFoundErr`, changing
    /// nothing, where the tree does not hold `key`.
    pub fn remove(&mut self, key: String) -> (r: Result<(), DbError>)
        ensures
            match r {
                Ok(()) => {
                    &&& old(self)@.contains_key(encode_utf8(key@))
                    &&& final(self)@ == old(self)@.remove(encode_utf8(key@))
                },
                Err(DbError::KeyNotFoundErr) => {
                    &&& !old(self)@.contains_key(encode_utf8(key@))
                    &&& final(self)@ == old(self)@
                },
                Err(e) => e is SledErr,
            },
    {
        let k = key.as_str().as_bytes_vec();
        match db_remove(&mut self.0, k.as_slice()) {
            Ok(Some(_)) => {},
            Ok(None) => {
                proof {
                    assert(sled_contents(self.0) =~= sled_contents(old(self).0));
                }
                return Err(DbError::KeyNotFoundErr);
            },
            Err(e) => {
                return Err(DbError::SledErr(e));
            },
        }
        match db_flush(&self.0) {
            Ok(_) => Ok(()),
            Err(e) => Err(DbError::SledErr(e)),
        }
    }
}

} // verus!
