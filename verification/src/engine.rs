//! What a storage engine offers, and which engine owns a directory.

use std::path::PathBuf;
use vstd::prelude::*;
use crate::command::CommandView;
use crate::error::KvsError;
use crate::kvs::KvStore;
use crate::record::{refusal_text, refused, same_text};

verus! {

/// A path of `std`, carried through as an opaque value.
#[verifier::external_type_specification]
#[verifier::external_body]
pub struct ExPathBuf(PathBuf);

/// `PathBuf::clone` gives the same path.
pub assume_specification[ <PathBuf as Clone>::clone ](path: &PathBuf) -> (copy: PathBuf)
    ensures
        copy == *path,
;

/// A key/value store: keys with their values, which can be set, looked up
/// and removed.
///
/// An engine may say what it holds and when it fails, through `contents`
/// and the three functions `refuses_set`, `refuses_get` and
/// `refuses_remove`, and says through `modelled` whether it does.  What the
/// methods promise, they promise of engines that do; of the others nothing
/// is known here.
pub trait KvsEngine: Send + Sync {
    /// Whether `contents` and the three functions on failure describe the
    /// engine.
    open spec fn modelled(&self) -> bool {
        false
    }

    /// The keys of the engine with their values.
    open spec fn contents(&self) -> Map<Seq<char>, Seq<char>> {
        Map::empty()
    }

    /// The text of the error with which the engine fails to give `key` the
    /// value `value`, or `None` where it does not fail.
    open spec fn refuses_set(&self, key: Seq<char>, value: Seq<char>) -> Option<Seq<char>> {
        None
    }

    /// The text of the error with which the engine fails to look `key` up,
    /// or `None` where it does not fail.
    open spec fn refuses_get(&self, key: Seq<char>) -> Option<Seq<char>> {
        None
    }

    /// The text of the error with which the engine fails to take the value
    /// of `key` away, or `None` where it does not fail.
    open spec fn refuses_remove(&self, key: Seq<char>) -> Option<Seq<char>> {
        None
    }

    /// Gives `key` the value `value`.  Where that fails nothing changes.
    fn set(&mut self, key: String, value: String) -> (r: Result<(), KvsError>)
        ensures
            old(self).modelled() ==> final(self).modelled() && match old(self).refuses_set(
                key@,
                value@,
            ) {
                None => r is Ok && final(self).contents() == old(self).contents().insert(
                    key@,
                    value@,
                ),
                Some(text) => r matches Err(e) && e.text() == text && final(self).contents() == old(
                    self,
                ).contents(),
            },
    ;

    /// The value of `key`, or `None` where the key has none.  Nothing changes.
    fn get(&mut self, key: String) -> (r: Result<Option<String>, KvsError>)
        ensures
            old(self).modelled() ==> final(self).modelled() && final(self).contents() == old(
                self,
            ).contents() && match old(self).refuses_get(key@) {
                None => match r {
                    Ok(Some(value)) => old(self).contents().contains_key(key@) && old(
                        self,
                    ).contents()[key@] == value@,
                    Ok(None) => !old(self).contents().contains_key(key@),
                    Err(_) => false,
                },
                Some(text) => r matches Err(e) && e.text() == text,
            },
    ;

    /// Takes the value of `key` away.  It fails with `KeyNotFound` where
    /// the key has no value, and only there.  Where it fails nothing changes.
    fn remove(&mut self, key: String) -> (r: Result<(), KvsError>)
        ensures
            old(self).modelled() ==> final(self).modelled() && match old(self).refuses_remove(key@) {
                None => r is Ok && final(self).contents() == old(self).contents().remove(key@),
                Some(text) => r matches Err(e) && e.text() == text && final(self).contents() == old(
                    self,
                ).contents(),
            } && (r matches Err(KvsError::KeyNotFound) <==> !old(self).contents().contains_key(
                key@,
            )),
    ;
}

impl KvsEngine for KvStore {
    open spec fn modelled(&self) -> bool {
        true
    }

    open spec fn contents(&self) -> Map<Seq<char>, Seq<char>> {
        self@.contents()
    }

    open spec fn refuses_set(&self, key: Seq<char>, value: Seq<char>) -> Option<Seq<char>> {
        let cmd = CommandView::Put { key, value };
        if self@.files.accepts(cmd) {
            None
        } else {
            Some(refusal_text(cmd))
        }
    }

    open spec fn refuses_get(&self, key: Seq<char>) -> Option<Seq<char>> {
        None
    }

    open spec fn refuses_remove(&self, key: Seq<char>) -> Option<Seq<char>> {
        let cmd = CommandView::Del { key };
        if !self@.contents().contains_key(key) {
            Some(KvsError::KeyNotFound.text())
        } else if self@.files.accepts(cmd) {
            None
        } else {
            Some(refusal_text(cmd))
        }
    }

    fn set(&mut self, key: String, value: String) -> (r: Result<(), KvsError>)
        ensures
            final(self)@.wf(),
            old(self)@.files.within() ==> final(self)@.files.within(),
            ({
                let cmd = CommandView::Put { key: key@, value: value@ };
                let before = old(self)@;
                match r {
                    Ok(()) => {
                        &&& before.files.accepts(cmd)
                        &&& final(self)@.contents() == before.contents().insert(key@, value@)
                        &&& before.counted(
                            before.files.written(cmd),
                            KvStore::indexed(before.index, before.files, cmd),
                            final(self)@,
                        )
                    },
                    Err(e) => {
                        &&& !before.files.accepts(cmd)
                        &&& final(self)@ == before
                        &&& refused(cmd, e)
                    },
                }
            }),
    {
        KvStore::set(self, key, value)
    }

    fn get(&mut self, key: String) -> (r: Result<Option<String>, KvsError>)
        ensures
            final(self)@ == old(self)@,
            match r {
                Ok(Some(value)) => old(self)@.contents().contains_key(key@) && old(
                    self,
                )@.contents()[key@] == value@,
                Ok(None) => !old(self)@.contents().contains_key(key@),
                Err(_) => false,
            },
    {
        KvStore::get(self, key)
    }

    fn remove(&mut self, key: String) -> (r: Result<(), KvsError>)
        ensures
            final(self)@.wf(),
            old(self)@.files.within() ==> final(self)@.files.within(),
            ({
                let cmd = CommandView::Del { key: key@ };
                let before = old(self)@;
                match r {
                    Ok(()) => {
                        &&& before.contents().contains_key(key@)
                        &&& before.files.accepts(cmd)
                        &&& final(self)@.contents() == before.contents().remove(key@)
                        &&& before.counted(
                            before.files.written(cmd),
                            KvStore::indexed(before.index, before.files, cmd),
                            final(self)@,
                        )
                    },
                    Err(e) => {
                        &&& final(self)@ == before
                        &&& if !before.contents().contains_key(key@) {
                            e is KeyNotFound
                        } else {
                            &&& !before.files.accepts(cmd)
                            &&& refused(cmd, e)
                        }
                    },
                }
            }),
    {
        KvStore::remove(self, key)
    }
}

/// The engine that owns a directory, with the path of the directory.
pub enum EngineType {
    /// The log-structured engine of this library.
    Kvs(PathBuf),
    /// The engine on top of `sled`.
    Sled(PathBuf),
}

/// What to do with the marker file of a directory.
#[derive(Debug)]
pub enum Marker {
    /// The directory is new: write the marker file with this content.
    Write(String),
    /// The marker file names this engine: nothing to do.
    Keep,
}

impl EngineType {
    /// The name of the engine, which is the content of its marker file.
    pub open spec fn name(&self) -> Seq<char> {
        match self {
            EngineType::Kvs(_) => seq!['k', 'v', 's'],
            EngineType::Sled(_) => seq!['s', 'l', 'e', 'd'],
        }
    }

    /// The path of the directory.
    pub open spec fn path(&self) -> PathBuf {
        match self {
            EngineType::Kvs(path) => *path,
            EngineType::Sled(path) => *path,
        }
    }

    /// The engine with the name `name` on the directory `path`.
    /// `InvalidStorageEngineType` where no engine has that name.
    pub fn from_name(name: &str, path: PathBuf) -> (r: Result<EngineType, KvsError>)
        ensures
            match r {
                Ok(engine) => engine.name() == name@ && engine.path() == path,
                Err(e) => e is InvalidStorageEngineType && name@ != seq!['k', 'v', 's'] && name@
                    != seq!['s', 'l', 'e', 'd'],
            },
    {
        let given = name.to_string();
        let kvs = EngineType::Kvs(path);
        if same_text(&given, &kvs.get_name()) {
            return Ok(kvs);
        }
        let path = match kvs {
            EngineType::Kvs(path) => path,
            EngineType::Sled(path) => path,
        };
        let sled = EngineType::Sled(path);
        if same_text(&given, &sled.get_name()) {
            return Ok(sled);
        }
        Err(KvsError::InvalidStorageEngineType)
    }

    /// Checks the engine against the marker file of its directory, whose
    /// content is `marker`, or `None` where the directory has no marker
    /// file.  A directory without a marker file is to get one that names
    /// the engine.  `InvalidStorageEngineType` where the marker file does
    /// not hold exactly the name of the engine.
    pub fn check(&self, marker: Option<String>) -> (r: Result<Marker, KvsError>)
        ensures
            match marker {
                None => r matches Ok(Marker::Write(name)) && name@ == self.name(),
                Some(found) => if found@ == self.name() {
                    r matches Ok(Marker::Keep)
                } else {
                    r matches Err(KvsError::InvalidStorageEngineType)
                },
            },
    {
        let name = self.get_name();
        match marker {
            None => Ok(Marker::Write(name)),
            Some(found) => {
                if same_text(&found, &name) {
                    Ok(Marker::Keep)
                } else {
                    Err(KvsError::InvalidStorageEngineType)
                }
            },
        }
    }

    /// The name of the engine.
    pub fn get_name(&self) -> (name: String)
        ensures
            name@ == self.name(),
    {
        proof {
            reveal_strlit("kvs");
            reveal_strlit("sled");
            assert("kvs"@ =~= seq!['k', 'v', 's']);
            assert("sled"@ =~= seq!['s', 'l', 'e', 'd']);
        }
        match self {
            EngineType::Kvs(_) => "kvs".to_string(),
            EngineType::Sled(_) => "sled".to_string(),
        }
    }

    /// The path of the directory.
    pub fn get_path(&self) -> (r: Result<PathBuf, KvsError>)
        ensures
            r matches Ok(path) && path == self.path(),
    {
        match self {
            EngineType::Kvs(path) => Ok(path.clone()),
            EngineType::Sled(path) => Ok(path.clone()),
        }
    }
}

} // verus!
