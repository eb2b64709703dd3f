use crate::model::{lemma_graft_same, Node};
use crate::path::{lemma_segments_valid, segments};
use crate::sandbox::{run, Outcome};
use crate::service::FileSystemServer;
use crate::status::Failure;
use crate::tree::{lemma_view_valid, Tree};
use vstd::prelude::*;

verus! {

/// The store: one tree of files and directories. Its root is a directory, and
/// every directory keeps its entries in the order of their names, each under a
/// valid name of its own.
#[derive(Debug)]
pub struct FileSystemImpl {
    root: Tree,
}

/// What came back from reading a file, with the bytes as a sequence.
pub open spec fn content_of(r: Result<Vec<u8>, Failure>) -> Result<Seq<u8>, Failure> {
    match r {
        Ok(content) => Ok(content@),
        Err(failure) => Err(failure),
    }
}

/// What came back from a listing, with each line as a sequence of characters.
pub open spec fn lines_of(r: Result<Vec<String>, Failure>) -> Result<Seq<Seq<char>>, Failure> {
    match r {
        Ok(lines) => Ok(lines.deep_view()),
        Err(failure) => Err(failure),
    }
}

impl FileSystemImpl {
    #[verifier::type_invariant]
    spec fn sound(&self) -> bool {
        self.root.well_formed() && self.root@ is Branch
    }

    /// The tree that the store holds.
    pub closed spec fn view(&self) -> Node {
        self.root@
    }

    /// A store whose root has no entries.
    pub fn new() -> (r: FileSystemImpl)
        ensures
            r@ == Node::empty(),
    {
        FileSystemImpl { root: Tree::empty() }
    }

    /// What holds of a store at all times: its root is a directory, never a
    /// file, and every directory in it has finitely many entries, each under a
    /// valid name of its own. The call does nothing when the program runs.
    pub fn always(&self)
        ensures
            self@ is Branch,
            self@.valid(),
    {
        proof {
            use_type_invariant(self);
            lemma_view_valid(self.root);
        }
    }

    /// The bytes of the file at `path`.
    pub fn get(&self, path: &str) -> (r: Result<Vec<u8>, Failure>)
        ensures
            content_of(r) == self@.read(path@),
    {
        proof {
            use_type_invariant(self);
        }
        let segs = segments(path);
        match self.root.get(&segs) {
            Some(Tree::Leaf(content)) => Ok(content.clone()),
            _ => Err(Failure::NoSuchFile),
        }
    }

    /// The entries of the directory at `path`, in the order of their names, a
    /// directory with a separator after its name; for a file, the path as it
    /// was given.
    pub fn list(&self, path: &str) -> (r: Result<Vec<String>, Failure>)
        ensures
            lines_of(r) == self@.list(path@),
    {
        proof {
            use_type_invariant(self);
        }
        let segs = segments(path);
        match self.root.get(&segs) {
            None => Err(Failure::NoSuchFile),
            Some(Tree::Leaf(_)) => {
                let mut lines: Vec<String> = Vec::new();
                lines.push(path.to_owned());
                proof {
                    assert(lines.deep_view() =~= seq![path@]);
                }
                Ok(lines)
            },
            Some(Tree::Parent(files)) => Ok(files.listing()),
        }
    }

    /// Writes `content` to the file at `path`, making the file where the
    /// directory has none of that name. Directories on the way are not made,
    /// and a directory is never written over. On failure the store is as it
    /// was.
    pub fn write(&mut self, path: &str, content: Vec<u8>) -> (r: Result<(), Failure>)
        ensures
            match old(self)@.write(path@, content@) {
                Ok(after) => r is Ok && final(self)@ == after,
                Err(failure) => r == Err::<(), Failure>(failure) && final(self)@ == old(self)@,
            },
    {
        proof {
            use_type_invariant(&*self);
            lemma_segments_valid(path@);
        }
        let mut segs = segments(path);
        let ghost all = segs.deep_view();
        let name = match segs.pop() {
            None => {
                return Err(Failure::IllegalFilename);
            },
            Some(name) => name,
        };
        proof {
            assert(segs.deep_view() =~= all.drop_last());
            assert(name@ == all.last());
        }
        // The tree is taken out while it is changed and put back after.
        let mut root = Tree::empty();
        core::mem::swap(&mut self.root, &mut root);
        let r = match root.get_mut(&segs) {
            Some(Tree::Parent(files)) => {
                if let Some(Tree::Parent(_)) = files.get(name.as_str()) {
                    proof {
                        lemma_graft_same(old(self).root@, segs.deep_view());
                    }
                    Err(Failure::WriteToDirectory)
                } else {
                    files.insert(name, Tree::Leaf(content));
                    Ok(())
                }
            },
            Some(Tree::Leaf(_)) => {
                proof {
                    lemma_graft_same(old(self).root@, segs.deep_view());
                }
                Err(Failure::NoSuchDirectory)
            },
            None => Err(Failure::NoSuchDirectory),
        };
        core::mem::swap(&mut self.root, &mut root);
        r
    }

    /// Makes an empty directory at `path`. Where a directory is there already
    /// it stays as it is and the call succeeds; a file in its place is in the
    /// way. Directories on the way are not made. On failure the store is as it
    /// was.
    pub fn mkdir(&mut self, path: &str) -> (r: Result<(), Failure>)
        ensures
            match old(self)@.mkdir(path@) {
                Ok(after) => r is Ok && final(self)@ == after,
                Err(failure) => r == Err::<(), Failure>(failure) && final(self)@ == old(self)@,
            },
    {
        proof {
            use_type_invariant(&*self);
            lemma_segments_valid(path@);
        }
        let mut segs = segments(path);
        let ghost all = segs.deep_view();
        let name = match segs.pop() {
            None => {
                return Err(Failure::IllegalDirname);
            },
            Some(name) => name,
        };
        proof {
            assert(segs.deep_view() =~= all.drop_last());
            assert(name@ == all.last());
        }
        // The tree is taken out while it is changed and put back after.
        let mut root = Tree::empty();
        core::mem::swap(&mut self.root, &mut root);
        let r = match root.get_mut(&segs) {
            Some(Tree::Parent(files)) => {
                match files.get(name.as_str()) {
                    Some(Tree::Parent(_)) => {
                        proof {
                            lemma_graft_same(old(self).root@, segs.deep_view());
                        }
                        Ok(())
                    },
                    Some(Tree::Leaf(_)) => {
                        proof {
                            lemma_graft_same(old(self).root@, segs.deep_view());
                        }
                        Err(Failure::FileExists)
                    },
                    None => {
                        files.insert(name, Tree::empty());
                        Ok(())
                    },
                }
            },
            Some(Tree::Leaf(_)) => {
                proof {
                    lemma_graft_same(old(self).root@, segs.deep_view());
                }
                Err(Failure::NoSuchDirectory)
            },
            None => Err(Failure::NoSuchDirectory),
        };
        core::mem::swap(&mut self.root, &mut root);
        r
    }

    /// Runs `code` in the sandbox, apart from the store: the module is
    /// instantiated without imports, and its entry function is called with the
    /// entry argument. What comes back is the value that the function returned,
    /// or which of the steps failed.
    pub fn exec(code: &[u8]) -> (r: Result<i32, Failure>)
        ensures
            exists|outcome: Outcome| r == outcome.response(),
    {
        let outcome = run(code);
        outcome.respond()
    }

    /// Hands the store over to a service that answers requests on it.
    pub fn into_service(self) -> (service: FileSystemServer)
        ensures
            service@ == self@,
    {
        FileSystemServer::new(self)
    }
}

impl Default for FileSystemImpl {
    /// A store whose root has no entries.
    fn default() -> (r: FileSystemImpl)
        ensures
            r@ == Node::empty(),
    {
        FileSystemImpl::new()
    }
}

} // verus!
