use crate::model::Node;
use crate::status::Failure;
use crate::store::FileSystemImpl;
use vstd::prelude::*;

verus! {

/// A request that reads the store, and so can be answered beside others of
/// its kind.
#[derive(Debug)]
pub enum Query {
    /// For the bytes of the file at `path`.
    Get { path: String },
    /// For the entries of the directory at `path`.
    List { path: String },
}

/// The answer to a query.
#[derive(Debug)]
pub enum Answer {
    /// The bytes of a file.
    Content(Vec<u8>),
    /// The lines of a listing.
    Paths(Vec<String>),
}

/// A request that changes the store, and so needs it to itself.
#[derive(Debug)]
pub enum Update {
    /// To write `content` to the file at `path`.
    Write { path: String, content: Vec<u8> },
    /// To make a directory at `path`.
    Mkdir { path: String },
}

/// What an answer holds, with its bytes and lines as sequences.
pub ghost enum Reply {
    Content(Seq<u8>),
    Paths(Seq<Seq<char>>),
}

impl Answer {
    /// What the answer holds.
    pub open spec fn view(&self) -> Reply {
        match self {
            Answer::Content(content) => Reply::Content(content@),
            Answer::Paths(paths) => Reply::Paths(paths.deep_view()),
        }
    }
}

impl Query {
    /// What the query has to be answered with on the tree `root`.
    pub open spec fn reply(&self, root: Node) -> Result<Reply, Failure> {
        match self {
            Query::Get { path } => match root.read(path@) {
                Ok(content) => Ok(Reply::Content(content)),
                Err(failure) => Err(failure),
            },
            Query::List { path } => match root.list(path@) {
                Ok(paths) => Ok(Reply::Paths(paths)),
                Err(failure) => Err(failure),
            },
        }
    }
}

impl Update {
    /// What the update makes of the tree `root`.
    pub open spec fn apply(&self, root: Node) -> Result<Node, Failure> {
        match self {
            Update::Write { path, content } => root.write(path@, content@),
            Update::Mkdir { path } => root.mkdir(path@),
        }
    }
}

/// What came back for a query, with its bytes and lines as sequences.
pub open spec fn reply_of(r: Result<Answer, Failure>) -> Result<Reply, Failure> {
    match r {
        Ok(answer) => Ok(answer@),
        Err(failure) => Err(failure),
    }
}

/// A store that answers requests. Queries take it shared and updates take it
/// alone, so that no query sees an update half done and no two updates mix.
#[derive(Debug)]
pub struct FileSystemServer {
    inner: FileSystemImpl,
}

impl FileSystemServer {
    /// The tree that the store holds.
    pub closed spec fn view(&self) -> Node {
        self.inner@
    }

    /// A service on `inner`.
    pub fn new(inner: FileSystemImpl) -> (service: FileSystemServer)
        ensures
            service@ == inner@,
    {
        FileSystemServer { inner }
    }

    /// Answers a query. The store stays as it is.
    pub fn query(&self, query: &Query) -> (r: Result<Answer, Failure>)
        ensures
            reply_of(r) == query.reply(self@),
    {
        match query {
            Query::Get { path } => match self.inner.get(path.as_str()) {
                Ok(content) => Ok(Answer::Content(content)),
                Err(failure) => Err(failure),
            },
            Query::List { path } => match self.inner.list(path.as_str()) {
                Ok(paths) => Ok(Answer::Paths(paths)),
                Err(failure) => Err(failure),
            },
        }
    }

    /// Carries out an update, as a whole or not at all.
    pub fn update(&mut self, update: Update) -> (r: Result<(), Failure>)
        ensures
            match update.apply(old(self)@) {
                Ok(after) => r is Ok && final(self)@ == after,
                Err(failure) => r == Err::<(), Failure>(failure) && final(self)@ == old(self)@,
            },
    {
        match update {
            Update::Write { path, content } => self.inner.write(path.as_str(), content),
            Update::Mkdir { path } => self.inner.mkdir(path.as_str()),
        }
    }
}

} // verus!
