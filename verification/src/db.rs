//! The durable pending-session database: one tree holding the start
//! event of each running command, keyed by session id, and one tree
//! whose keys are the disabled sessions. Both live in an embedded
//! key-value store; its operations are trusted against its source, and
//! everything layered on them is verified.

use vstd::prelude::*;
use crate::session::SessionId;
use crate::message::CommandStart;
use crate::codec::{enc_start, dec_start, start_encodable, encode_start_value, decode_start_value};
use vstd::string::StrSliceExecFns;

verus! {

#[verifier::external_type_specification]
#[verifier::external_body]
pub struct ExSledDb(sled::Db);

#[verifier::external_type_specification]
#[verifier::external_body]
pub struct ExSledError(sled::Error);

/// What a tree of the store holds: a map from keys to values.
pub uninterp spec fn tree_view(t: sled::Db) -> Map<Seq<u8>, Seq<u8>>;

/// Relies on sled::open: opens (or creates) the tree rooted at the
/// given directory. What it holds depends on the disk, so nothing is
/// said of the contents.
#[verifier::external_body]
fn open_tree(path: &String) -> Result<sled::Db, sled::Error> {
    sled::open(path.as_str())
}

/// Relies on sled::Tree::contains_key: whether the key is present.
#[verifier::external_body]
fn tree_contains(t: &sled::Db, key: &Vec<u8>) -> (r: Result<bool, sled::Error>)
    ensures
        r matches Ok(b) ==> b == tree_view(*t).dom().contains(key@),
{
    t.contains_key(key.as_slice())
}

/// Relies on sled::Tree::insert: maps the key to the value, returning
/// what the key mapped to before.
#[verifier::external_body]
fn tree_insert(t: &mut sled::Db, key: &Vec<u8>, value: Vec<u8>) -> (r: Result<
    Option<Vec<u8>>,
    sled::Error,
>)
    ensures
        r matches Ok(prev) ==> tree_view(*final(t)) == tree_view(*old(t)).insert(key@, value@)
            && (match prev {
            Some(p) => tree_view(*old(t)).dom().contains(key@) && tree_view(*old(t))[key@] == p@,
            None => !tree_view(*old(t)).dom().contains(key@),
        }),
{
    match t.insert(key.as_slice(), value) {
        Ok(Some(iv)) => Ok(Some(iv.to_vec())),
        Ok(None) => Ok(None),
        Err(e) => Err(e),
    }
}

/// Relies on sled::Tree::remove: unmaps the key, returning what it
/// mapped to.
#[verifier::external_body]
fn tree_remove(t: &mut sled::Db, key: &Vec<u8>) -> (r: Result<Option<Vec<u8>>, sled::Error>)
    ensures
        r matches Ok(prev) ==> tree_view(*final(t)) == tree_view(*old(t)).remove(key@) && (
        match prev {
            Some(p) => tree_view(*old(t)).dom().contains(key@) && tree_view(*old(t))[key@] == p@,
            None => !tree_view(*old(t)).dom().contains(key@),
        }),
{
    match t.remove(key.as_slice()) {
        Ok(Some(iv)) => Ok(Some(iv.to_vec())),
        Ok(None) => Ok(None),
        Err(e) => Err(e),
    }
}

/// Why a database operation failed.
#[derive(Debug)]
pub enum DbError {
    /// The tree of pending starts could not be opened.
    OpenEntriesDatabase(sled::Error),
    /// The tree of disabled sessions could not be opened.
    OpenDisabledSessionsDatabase(sled::Error),
    /// A start event too large for its value form.
    SerializeData,
    /// A cached value that does not read back as a start event.
    DeserializeEntry,
    /// The store itself failed.
    Sled(sled::Error),
    /// No start is pending for the session.
    EntryNotExist,
}

/// The daemon's durable session state.
#[derive(Debug)]
pub struct SessionDb {
    entries: sled::Db,
    disabled_sessions: sled::Db,
}

impl SessionDb {
    /// The pending map: session id bytes to encoded start events.
    pub closed spec fn pending(self) -> Map<Seq<u8>, Seq<u8>> {
        tree_view(self.entries)
    }

    /// The set of disabled session ids.
    pub closed spec fn disabled(self) -> Set<Seq<u8>> {
        tree_view(self.disabled_sessions).dom()
    }

    /// Opens the two trees under the given cache directory.
    pub fn open(cache_dir: &String) -> Result<SessionDb, DbError> {
        let mut entries_path = cache_dir.clone();
        entries_path.append("/entries");
        let mut disabled_path = cache_dir.clone();
        disabled_path.append("/disabled_sessions");
        let entries = match open_tree(&entries_path) {
            Ok(t) => t,
            Err(e) => {
                return Err(DbError::OpenEntriesDatabase(e));
            },
        };
        let disabled_sessions = match open_tree(&disabled_path) {
            Ok(t) => t,
            Err(e) => {
                return Err(DbError::OpenDisabledSessionsDatabase(e));
            },
        };
        Ok(SessionDb { entries, disabled_sessions })
    }

    /// Whether a start is pending for the session.
    pub fn contains_entry(&self, sid: &SessionId) -> (r: Result<bool, DbError>)
        ensures
            r matches Ok(b) ==> b == self.pending().dom().contains(sid@),
    {
        let key = sid_key(sid);
        match tree_contains(&self.entries, &key) {
            Ok(b) => Ok(b),
            Err(e) => Err(DbError::Sled(e)),
        }
    }

    /// Whether the session is disabled.
    pub fn is_session_disabled(&self, sid: &SessionId) -> (r: Result<bool, DbError>)
        ensures
            r matches Ok(b) ==> b == self.disabled().contains(sid@),
    {
        let key = sid_key(sid);
        match tree_contains(&self.disabled_sessions, &key) {
            Ok(b) => Ok(b),
            Err(e) => Err(DbError::Sled(e)),
        }
    }

    /// Caches a start event under its session id.
    pub fn add_entry(&mut self, start: &CommandStart) -> (r: Result<(), DbError>)
        ensures
            r matches Ok(()) ==> final(self).pending() == old(self).pending().insert(
                start.session_id@,
                enc_start(start@),
            ) && final(self).disabled() == old(self).disabled(),
            r matches Err(e) ==> (e is SerializeData <==> !start_encodable(start@)) && (
            e is SerializeData ==> final(self).pending() == old(self).pending()
                && final(self).disabled() == old(self).disabled()),
    {
        let value = match encode_start_value(start) {
            Some(v) => v,
            None => {
                return Err(DbError::SerializeData);
            },
        };
        let key = sid_key(&start.session_id);
        match tree_insert(&mut self.entries, &key, value) {
            Ok(_) => Ok(()),
            Err(e) => Err(DbError::Sled(e)),
        }
    }

    /// Removes and returns the pending start for the session; fails
    /// when none is pending.
    pub fn remove_entry(&mut self, sid: &SessionId) -> (r: Result<CommandStart, DbError>)
        ensures
            r matches Ok(cs) ==> old(self).pending().dom().contains(sid@) && dec_start(
                old(self).pending()[sid@],
                0,
            ) == Some((cs@, old(self).pending()[sid@].len() as int)) && final(self).pending()
                == old(self).pending().remove(sid@) && final(self).disabled() == old(
                self,
            ).disabled(),
            r matches Err(e) ==> (e is EntryNotExist ==> !old(self).pending().dom().contains(
                sid@,
            ) && final(self).pending() == old(self).pending() && final(self).disabled() == old(
                self,
            ).disabled()),
    {
        let key = sid_key(sid);
        match tree_remove(&mut self.entries, &key) {
            Ok(Some(data)) => {
                match decode_start_value(&data) {
                    Some(cs) => Ok(cs),
                    None => Err(DbError::DeserializeEntry),
                }
            },
            Ok(None) => {
                proof {
                    assert(old(self).pending().remove(sid@) =~= old(self).pending());
                }
                Err(DbError::EntryNotExist)
            },
            Err(e) => Err(DbError::Sled(e)),
        }
    }

    /// Disables the session: marks it and drops any pending start.
    pub fn disable_session(&mut self, sid: &SessionId) -> (r: Result<(), DbError>)
        ensures
            r matches Ok(()) ==> final(self).disabled() == old(self).disabled().insert(sid@)
                && final(self).pending() == old(self).pending().remove(sid@),
    {
        let key = sid_key(sid);
        let flag: Vec<u8> = vec![1];
        match tree_insert(&mut self.disabled_sessions, &key, flag) {
            Ok(_) => {},
            Err(e) => {
                return Err(DbError::Sled(e));
            },
        }
        match tree_remove(&mut self.entries, &key) {
            Ok(_) => {},
            Err(e) => {
                return Err(DbError::Sled(e));
            },
        }
        proof {
            assert(final(self).disabled() =~= old(self).disabled().insert(sid@));
        }
        Ok(())
    }

    /// Enables the session again; pending entries are not restored, and
    /// the pending tree is untouched on every path.
    pub fn enable_session(&mut self, sid: &SessionId) -> (r: Result<(), DbError>)
        ensures
            r matches Ok(()) ==> final(self).disabled() == old(self).disabled().remove(sid@),
            final(self).pending() == old(self).pending(),
    {
        let key = sid_key(sid);
        match tree_remove(&mut self.disabled_sessions, &key) {
            Ok(_) => {},
            Err(e) => {
                return Err(DbError::Sled(e));
            },
        }
        proof {
            assert(final(self).disabled() =~= old(self).disabled().remove(sid@));
        }
        Ok(())
    }
}

/// The key a session is filed under: its 16 raw bytes.
fn sid_key(sid: &SessionId) -> (r: Vec<u8>)
    ensures
        r@ == sid@,
{
    let mut v: Vec<u8> = Vec::new();
    let mut i: usize = 0;
    while i < 16
        invariant
            i <= 16,
            sid@.len() == 16,
            v@ == sid@.subrange(0, i as int),
        decreases 16 - i,
    {
        v.push(sid.bytes[i]);
        proof {
            assert(v@ =~= sid@.subrange(0, i + 1 as int));
        }
        i += 1;
    }
    proof {
        assert(sid@.subrange(0, 16) =~= sid@);
    }
    v
}

} // verus!
