//! In-memory model of one storage directory: a flat set of named files.
//! The pipeline's file-system collaborators hand the library values of this
//! type; every operation on it is verified against the name/content view.
use vstd::prelude::*;

use crate::bytes::copy_bytes;

verus! {

/// One file: its name within the directory and its content.
pub struct FileEntry {
    pub name: Vec<u8>,
    pub data: Vec<u8>,
}

/// A flat directory of files with pairwise-distinct names.
pub struct Dir {
    pub files: Vec<FileEntry>,
}

impl Dir {
    /// Names of the files, in directory order.
    pub open spec fn names(self) -> Seq<Seq<u8>> {
        self.files@.map_values(|e: FileEntry| e.name@)
    }

    /// Well-formed: no two files share a name.
    pub open spec fn wf(self) -> bool {
        forall|i: int, j: int|
            0 <= i < j < self.files@.len() ==> self.files@[i].name@ != self.files@[j].name@
    }

    /// Whether a file of this name is present.
    pub open spec fn has_file(self, name: Seq<u8>) -> bool {
        exists|i: int| 0 <= i < self.files@.len() && self.files@[i].name@ == name
    }

    /// The content of the file of this name (meaningful when present).
    pub open spec fn file_data(self, name: Seq<u8>) -> Seq<u8> {
        self.files@[choose|i: int|
            0 <= i < self.files@.len() && self.files@[i].name@ == name].data@
    }

    /// Two directories agree on every name except `except`.
    pub open spec fn same_but(self, other: Dir, except: Seq<u8>) -> bool {
        forall|n: Seq<u8>|
            n != except ==> (#[trigger] self.has_file(n) <==> other.has_file(n)) && (
            self.has_file(n) ==> self.file_data(n) == other.file_data(n))
    }

    /// Two directories hold the same files with the same contents.
    pub open spec fn same_files(self, other: Dir) -> bool {
        forall|n: Seq<u8>|
            ((#[trigger] self.has_file(n) <==> other.has_file(n)) && (self.has_file(n)
                ==> self.file_data(n) == other.file_data(n)))
    }

    /// `other` is `self` with `name` now holding `data` and nothing else moved.
    pub open spec fn updated(self, other: Dir, name: Seq<u8>, data: Seq<u8>) -> bool {
        other.has_file(name) && other.file_data(name) == data && self.same_but(other, name)
    }

    /// `other` is `self` without `name` and nothing else moved.
    pub open spec fn removed(self, other: Dir, name: Seq<u8>) -> bool {
        !other.has_file(name) && self.same_but(other, name)
    }

    /// When an entry at index `i` bears `name`, it is the one `file_data` reads.
    pub proof fn lemma_data_at(self, name: Seq<u8>, i: int)
        requires
            self.wf(),
            0 <= i < self.files@.len(),
            self.files@[i].name@ == name,
        ensures
            self.has_file(name),
            self.file_data(name) == self.files@[i].data@,
    {
        assert(self.has_file(name));
        let j = choose|j: int|
            0 <= j < self.files@.len() && self.files@[j].name@ == name;
        if i < j {
            assert(self.files@[i].name@ != self.files@[j].name@);
        } else if j < i {
            assert(self.files@[j].name@ != self.files@[i].name@);
        }
    }

    /// An empty directory.
    pub fn new() -> (r: Dir)
        ensures
            r.wf(),
            r.files@.len() == 0,
            forall|n: Seq<u8>| !r.has_file(n),
    {
        Dir { files: Vec::new() }
    }

    /// Index of the file of this name, if present.
    pub fn find(&self, name: &Vec<u8>) -> (r: Option<usize>)
        ensures
            match r {
                Some(i) => i < self.files@.len() && self.files@[i as int].name@ == name@,
                None => !self.has_file(name@),
            },
    {
        let mut i: usize = 0;
        while i < self.files.len()
            invariant
                i <= self.files@.len(),
                forall|j: int| 0 <= j < i ==> self.files@[j].name@ != name@,
            decreases self.files.len() - i,
        {
            if crate::bytes::bytes_eq(&self.files[i].name, name) {
                return Some(i);
            }
            i += 1;
        }
        None
    }

    /// Whether a file of this name is present.
    pub fn contains(&self, name: &Vec<u8>) -> (r: bool)
        ensures
            r == self.has_file(name@),
    {
        match self.find(name) {
            Some(i) => {
                proof {
                    assert(self.has_file(name@));
                }
                true
            },
            None => false,
        }
    }

    /// Reads the content of the file of this name.
    pub fn read(&self, name: &Vec<u8>) -> (r: Option<Vec<u8>>)
        requires
            self.wf(),
        ensures
            match r {
                Some(d) => self.has_file(name@) && d@ == self.file_data(name@),
                None => !self.has_file(name@),
            },
    {
        match self.find(name) {
            Some(i) => {
                proof {
                    self.lemma_data_at(name@, i as int);
                }
                Some(copy_bytes(&self.files[i].data))
            },
            None => None,
        }
    }

    /// Writes `data` under `name`, replacing any previous content.
    pub fn write(&mut self, name: &Vec<u8>, data: Vec<u8>)
        requires
            old(self).wf(),
        ensures
            final(self).wf(),
            old(self).updated(*final(self), name@, data@),
    {
        let ghost pre = *self;
        self.remove(name);
        let ghost mid = *self;
        let entry = FileEntry { name: copy_bytes(name), data };
        self.files.push(entry);
        proof {
            let last = self.files@.len() - 1;
            assert forall|k: int, l: int|
                0 <= k < l < self.files@.len() implies self.files@[k].name@
                != self.files@[l].name@ by {
                if l < last {
                    assert(mid.files@[k].name@ != mid.files@[l].name@);
                } else {
                    assert(self.files@[l].name@ == name@);
                    assert(self.files@[k] == mid.files@[k]);
                    if mid.files@[k].name@ == name@ {
                        assert(mid.has_file(name@));
                    }
                }
            }
            self.lemma_data_at(name@, last);
            assert forall|n: Seq<u8>| n != name@ implies (#[trigger] pre.has_file(n)
                <==> self.has_file(n)) && (pre.has_file(n) ==> pre.file_data(n)
                == self.file_data(n)) by {
                assert(pre.has_file(n) <==> mid.has_file(n));
                if mid.has_file(n) {
                    let z = choose|z: int|
                        0 <= z < mid.files@.len() && mid.files@[z].name@ == n;
                    mid.lemma_data_at(n, z);
                    assert(self.files@[z] == mid.files@[z]);
                    self.lemma_data_at(n, z);
                }
                if self.has_file(n) {
                    let si = choose|z: int|
                        0 <= z < self.files@.len() && self.files@[z].name@ == n;
                    assert(si != last);
                    assert(mid.files@[si] == self.files@[si]);
                    assert(mid.has_file(n));
                }
            }
        }
    }

    /// Removes the file of this name if present.
    pub fn remove(&mut self, name: &Vec<u8>)
        requires
            old(self).wf(),
        ensures
            final(self).wf(),
            old(self).removed(*final(self), name@),
    {
        let ghost pre = *self;
        match self.find(name) {
            Some(i) => {
                self.files.remove(i);
                proof {
                    assert forall|k: int, l: int|
                        0 <= k < l < self.files@.len() implies self.files@[k].name@
                        != self.files@[l].name@ by {
                        let pk = if k < i as int { k } else { k + 1 };
                        let pl = if l < i as int { l } else { l + 1 };
                        assert(pre.files@[pk].name@ != pre.files@[pl].name@);
                    }
                    assert forall|k: int|
                        0 <= k < self.files@.len() implies self.files@[k].name@ != name@ by {
                        let pk = if k < i as int { k } else { k + 1 };
                        assert(pre.files@[pk] == self.files@[k]);
                        if pk < i as int {
                            assert(pre.files@[pk].name@ != pre.files@[i as int].name@);
                        } else if pk > i as int {
                            assert(pre.files@[i as int].name@ != pre.files@[pk].name@);
                        }
                    }
                    assert forall|n: Seq<u8>| n != name@ implies (#[trigger] pre.has_file(n)
                        <==> self.has_file(n)) && (pre.has_file(n) ==> pre.file_data(n)
                        == self.file_data(n)) by {
                        if pre.has_file(n) {
                            let pi = choose|z: int|
                                0 <= z < pre.files@.len() && pre.files@[z].name@ == n;
                            pre.lemma_data_at(n, pi);
                            let ni = if pi < i as int { pi } else { pi - 1 };
                            assert(pi != i as int);
                            assert(self.files@[ni] == pre.files@[pi]);
                            self.lemma_data_at(n, ni);
                        }
                        if self.has_file(n) {
                            let si = choose|z: int|
                                0 <= z < self.files@.len() && self.files@[z].name@ == n;
                            let pi = if si < i as int { si } else { si + 1 };
                            assert(pre.files@[pi] == self.files@[si]);
                            assert(pre.has_file(n));
                        }
                    }
                }
            },
            None => {},
        }
    }

    /// Deep copy of the directory: same names, same contents, same order.
    pub fn duplicate(&self) -> (r: Dir)
        requires
            self.wf(),
        ensures
            r.wf(),
            r.files@.len() == self.files@.len(),
            forall|i: int|
                0 <= i < r.files@.len() ==> r.files@[i].name@ == self.files@[i].name@
                    && r.files@[i].data@ == self.files@[i].data@,
            self.same_files(r),
    {
        let mut files: Vec<FileEntry> = Vec::new();
        let mut i: usize = 0;
        while i < self.files.len()
            invariant
                i <= self.files@.len(),
                files@.len() == i,
                forall|j: int|
                    0 <= j < i ==> files@[j].name@ == self.files@[j].name@ && files@[j].data@
                        == self.files@[j].data@,
            decreases self.files.len() - i,
        {
            files.push(
                FileEntry {
                    name: copy_bytes(&self.files[i].name),
                    data: copy_bytes(&self.files[i].data),
                },
            );
            i += 1;
        }
        let r = Dir { files };
        proof {
            assert(r.wf());
            assert forall|n: Seq<u8>| ((#[trigger] self.has_file(n) <==> r.has_file(n)) && (
            self.has_file(n) ==> self.file_data(n) == r.file_data(n))) by {
                if self.has_file(n) {
                    let z = choose|z: int|
                        0 <= z < self.files@.len() && self.files@[z].name@ == n;
                    self.lemma_data_at(n, z);
                    r.lemma_data_at(n, z);
                }
                if r.has_file(n) {
                    let z = choose|z: int|
                        0 <= z < r.files@.len() && r.files@[z].name@ == n;
                    assert(self.files@[z].name@ == n);
                }
            }
        }
        r
    }

    /// All file names, in directory order.
    pub fn list_names(&self) -> (r: Vec<Vec<u8>>)
        ensures
            r@.len() == self.files@.len(),
            forall|i: int| 0 <= i < r@.len() ==> r@[i]@ == self.files@[i].name@,
    {
        let mut r: Vec<Vec<u8>> = Vec::new();
        let mut i: usize = 0;
        while i < self.files.len()
            invariant
                i <= self.files@.len(),
                r@.len() == i,
                forall|j: int| 0 <= j < i ==> r@[j]@ == self.files@[j].name@,
            decreases self.files.len() - i,
        {
            r.push(copy_bytes(&self.files[i].name));
            i += 1;
        }
        r
    }
}

/// Deleting an entry and then writing the same name is one write.
pub proof fn lemma_remove_then_write(pre: Dir, mid: Dir, post: Dir, name: Seq<u8>, data: Seq<u8>)
    requires
        pre.removed(mid, name),
        mid.updated(post, name, data),
    ensures
        pre.updated(post, name, data),
{
    assert forall|n: Seq<u8>| n != name implies (#[trigger] pre.has_file(n) <==> post.has_file(n))
        && (pre.has_file(n) ==> pre.file_data(n) == post.file_data(n)) by {
        assert(pre.has_file(n) <==> mid.has_file(n));
        assert(mid.has_file(n) <==> post.has_file(n));
    }
}

} // verus!
