//! In-memory model of the directory that holds a partition's segment files.
//! The engine's persistence logic is stated and verified against this model;
//! the embedding application mirrors every change to the real file system.

use vstd::prelude::*;

verus! {

/// One file: its path and its bytes.
pub struct DiskFile {
    pub path: String,
    pub data: Vec<u8>,
}

/// A set of files with pairwise distinct paths.
pub struct Disk {
    pub files: Vec<DiskFile>,
}

impl Disk {
    /// Paths are pairwise distinct.
    pub open spec fn wf(self) -> bool {
        forall|i: int, j: int|
            0 <= i < j < self.files@.len() ==> self.files@[i].path@ != self.files@[j].path@
    }

    /// Whether a file with this path exists.
    pub open spec fn has(self, path: Seq<char>) -> bool {
        exists|i: int| 0 <= i < self.files@.len() && self.files@[i].path@ == path
    }

    /// The bytes of the file with this path.
    pub open spec fn file_data(self, path: Seq<char>) -> Seq<u8> {
        let i = choose|i: int| 0 <= i < self.files@.len() && self.files@[i].path@ == path;
        self.files@[i].data@
    }

    /// On a well-formed disk the file at any index is the file its path names.
    pub proof fn lemma_file_at(self, i: int)
        requires
            self.wf(),
            0 <= i < self.files@.len(),
        ensures
            self.has(self.files@[i].path@),
            self.file_data(self.files@[i].path@) == self.files@[i].data@,
    {
        let p = self.files@[i].path@;
        assert(self.has(p));
        let j = choose|j: int| 0 <= j < self.files@.len() && self.files@[j].path@ == p;
        assert(j == i);
    }

    /// An empty directory.
    pub fn new() -> (d: Disk)
        ensures
            d.wf(),
            forall|p: Seq<char>| !d.has(p),
    {
        Disk { files: Vec::new() }
    }

    /// The position of the file with this path, if any.
    fn find(&self, path: &String) -> (r: Option<usize>)
        requires
            self.wf(),
        ensures
            match r {
                Some(i) => i < self.files@.len() && self.files@[i as int].path@ == path@,
                None => !self.has(path@),
            },
    {
        let n = self.files.len();
        let mut i: usize = 0;
        while i < n
            invariant
                i <= n,
                n == self.files@.len(),
                forall|j: int| 0 <= j < i ==> self.files@[j].path@ != path@,
            decreases n - i,
        {
            if self.files[i].path == *path {
                return Some(i);
            }
            i = i + 1;
        }
        None
    }

    /// Whether a file with this path exists.
    pub fn contains(&self, path: &String) -> (r: bool)
        requires
            self.wf(),
        ensures
            r == self.has(path@),
    {
        match self.find(path) {
            Some(i) => {
                proof {
                    self.lemma_file_at(i as int);
                }
                true
            },
            None => false,
        }
    }

    /// Creates the file, or truncates it when it already exists, as creating a
    /// file for writing does.
    pub fn create(&mut self, path: &String)
        requires
            old(self).wf(),
        ensures
            final (self).wf(),
            final (self).has(path@),
            final (self).file_data(path@) == Seq::<u8>::empty(),
            forall|q: Seq<char>|
                q != path@ ==> #[trigger] final (self).has(q) == old(self).has(q) && (old(self).has(
                    q,
                ) ==> final (self).file_data(q) == old(self).file_data(q)),
    {
        let found = self.find(path);
        match found {
            Some(i) => {
                self.files[i].data = Vec::new();
                proof {
                    let pre = *old(self);
                    assert(forall|j: int|
                        0 <= j < pre.files@.len() ==> self.files@[j].path@
                            == #[trigger] pre.files@[j].path@);
                    assert(self.wf());
                    self.lemma_file_at(i as int);
                    assert forall|q: Seq<char>| q != path@ implies #[trigger] self.has(q)
                        == pre.has(q) && (pre.has(q) ==> self.file_data(q) == pre.file_data(
                        q,
                    )) by {
                        if pre.has(q) {
                            let j = choose|j: int|
                                0 <= j < pre.files@.len() && pre.files@[j].path@ == q;
                            assert(j != i);
                            pre.lemma_file_at(j);
                            self.lemma_file_at(j);
                        }
                        if self.has(q) {
                            let j = choose|j: int|
                                0 <= j < self.files@.len() && self.files@[j].path@ == q;
                            assert(pre.files@[j].path@ == q);
                        }
                    }
                }
            },
            None => {
                self.files.push(DiskFile { path: path.clone(), data: Vec::new() });
                proof {
                    let pre = *old(self);
                    let n = pre.files@.len() as int;
                    assert(self.files@[n].path@ == path@);
                    assert(forall|j: int|
                        0 <= j < n ==> self.files@[j] == #[trigger] pre.files@[j]);
                    assert(self.wf());
                    self.lemma_file_at(n);
                    assert forall|q: Seq<char>| q != path@ implies #[trigger] self.has(q)
                        == pre.has(q) && (pre.has(q) ==> self.file_data(q) == pre.file_data(
                        q,
                    )) by {
                        if self.has(q) {
                            let j = choose|j: int|
                                0 <= j < self.files@.len() && self.files@[j].path@ == q;
                            assert(j < n);
                        }
                        if pre.has(q) {
                            let j = choose|j: int|
                                0 <= j < pre.files@.len() && pre.files@[j].path@ == q;
                            pre.lemma_file_at(j);
                            self.lemma_file_at(j);
                        }
                    }
                }
            },
        }
    }

    /// Appends bytes at the end of an existing file, as a buffered writer's
    /// flush does.
    pub fn append(&mut self, path: &String, bytes: &[u8])
        requires
            old(self).wf(),
            old(self).has(path@),
        ensures
            final (self).wf(),
            final (self).has(path@),
            final (self).file_data(path@) == old(self).file_data(path@) + bytes@,
            forall|q: Seq<char>|
                q != path@ ==> #[trigger] final (self).has(q) == old(self).has(q) && (old(self).has(
                    q,
                ) ==> final (self).file_data(q) == old(self).file_data(q)),
    {
        let found = self.find(path);
        let i = match found {
            Some(i) => i,
            None => {
                proof {
                    assert(false);
                }
                0
            },
        };
        proof {
            old(self).lemma_file_at(i as int);
        }
        let mut add = vstd::slice::slice_to_vec(bytes);
        self.files[i].data.append(&mut add);
        proof {
            let pre = *old(self);
            assert(forall|j: int|
                0 <= j < pre.files@.len() ==> self.files@[j].path@
                    == #[trigger] pre.files@[j].path@);
            assert(self.wf());
            self.lemma_file_at(i as int);
            assert forall|q: Seq<char>| q != path@ implies #[trigger] self.has(q) == pre.has(q) && (
            pre.has(q) ==> self.file_data(q) == pre.file_data(q)) by {
                if pre.has(q) {
                    let j = choose|j: int| 0 <= j < pre.files@.len() && pre.files@[j].path@ == q;
                    assert(j != i);
                    pre.lemma_file_at(j);
                    self.lemma_file_at(j);
                }
                if self.has(q) {
                    let j = choose|j: int| 0 <= j < self.files@.len() && self.files@[j].path@ == q;
                    assert(pre.files@[j].path@ == q);
                }
            }
        }
    }

    /// The bytes of the file with this path, when it exists.
    pub fn read(&self, path: &String) -> (r: Option<&Vec<u8>>)
        requires
            self.wf(),
        ensures
            match r {
                Some(v) => self.has(path@) && v@ == self.file_data(path@),
                None => !self.has(path@),
            },
    {
        match self.find(path) {
            Some(i) => {
                proof {
                    self.lemma_file_at(i as int);
                }
                Some(&self.files[i].data)
            },
            None => None,
        }
    }
}

} // verus!
