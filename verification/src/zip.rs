//! Model of the mutable package container and of v2-style whole-package
//! signing. The container codec itself (central directory, compression) is a
//! collaborator outside this library; what the pipeline relies on is the
//! entry map it maintains and the signing state machine: once a container is
//! finalized and signed, no further edit is possible, which `save_and_sign_v2`
//! enforces by consuming the handle.
use vstd::prelude::*;

use crate::storage::Dir;

verus! {

/// A signing certificate, identified by the key pair it wraps.
pub struct Cert {
    pub key_id: u64,
}

/// A signing private key, identified by its key pair.
pub struct PrivateKey {
    pub key_id: u64,
}

/// An opened, writable package container: a flat set of named entries.
pub struct ZipFile {
    pub entries: Dir,
}

/// A finalized, signed package: its entries are frozen and the signature
/// records which key pair produced it.
pub struct SignedApk {
    pub entries: Dir,
    pub signed_by: u64,
}

impl ZipFile {
    /// Well-formed: entry names are pairwise distinct.
    pub open spec fn wf(self) -> bool {
        self.entries.wf()
    }

    /// An empty container.
    pub fn new() -> (r: ZipFile)
        ensures
            r.wf(),
            forall|n: Seq<u8>| !r.entries.has_file(n),
    {
        ZipFile { entries: Dir::new() }
    }

    /// Whether an entry of this name is present.
    pub fn contains_file(&self, name: &Vec<u8>) -> (r: bool)
        ensures
            r == self.entries.has_file(name@),
    {
        self.entries.contains(name)
    }

    /// Reads an entry's bytes.
    pub fn read_file(&self, name: &Vec<u8>) -> (r: Option<Vec<u8>>)
        requires
            self.wf(),
        ensures
            match r {
                Some(d) => self.entries.has_file(name@) && d@ == self.entries.file_data(name@),
                None => !self.entries.has_file(name@),
            },
    {
        self.entries.read(name)
    }

    /// Deletes the entry of this name if present.
    pub fn delete_file(&mut self, name: &Vec<u8>)
        requires
            old(self).wf(),
        ensures
            final(self).wf(),
            old(self).entries.removed(final(self).entries, name@),
    {
        self.entries.remove(name)
    }

    /// Writes an entry, replacing any previous one of the same name. The
    /// model stores entry bytes as given; the per-entry compression the
    /// container codec applies on disk is outside this library.
    pub fn write_file(&mut self, name: &Vec<u8>, data: Vec<u8>)
        requires
            old(self).wf(),
        ensures
            final(self).wf(),
            old(self).entries.updated(final(self).entries, name@, data@),
    {
        self.entries.write(name, data)
    }

    /// All entry names, in container order.
    pub fn iter_entry_names(&self) -> (r: Vec<Vec<u8>>)
        ensures
            r@.len() == self.entries.files@.len(),
            forall|i: int| 0 <= i < r@.len() ==> r@[i]@ == self.entries.files@[i].name@,
    {
        self.entries.list_names()
    }

    /// Deep copy of the container, as taken before mutating a package.
    pub fn duplicate(&self) -> (r: ZipFile)
        requires
            self.wf(),
        ensures
            r.wf(),
            self.entries.same_files(r.entries),
    {
        ZipFile { entries: self.entries.duplicate() }
    }

    /// Recomputes the container's directory and applies a v2-style
    /// whole-package signature with the given key pair. Consumes the
    /// container: after signing, no further entry edit is possible.
    pub fn save_and_sign_v2(self, cert: &Cert, priv_key: &PrivateKey) -> (r: SignedApk)
        requires
            cert.key_id == priv_key.key_id,
        ensures
            r.entries == self.entries,
            r.signed_by == cert.key_id,
    {
        SignedApk { entries: self.entries, signed_by: priv_key.key_id }
    }
}

impl SignedApk {
    /// Whether the package's signature verifies against `cert`.
    pub fn verify_v2(&self, cert: &Cert) -> (r: bool)
        ensures
            r <==> self.signed_by == cert.key_id,
    {
        self.signed_by == cert.key_id
    }
}

} // verus!
