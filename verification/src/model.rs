use crate::order::{
    lemma_name_before_irreflexive, lemma_name_before_total, lemma_name_before_transitive,
    name_before,
};
use crate::path::{segments_of, separator, valid_name};
use crate::status::Failure;
use vstd::prelude::*;

verus! {

/// What a stored tree stands for: a file's bytes, or a directory that maps each
/// name to the node below it.
pub ghost enum Node {
    Leaf(Seq<u8>),
    Branch(Map<Seq<char>, Node>),
}

impl Node {
    /// The directory without entries.
    pub open spec fn empty() -> Node {
        Node::Branch(Map::empty())
    }

    /// The node under `name`, where this is a directory that has such an entry.
    pub open spec fn child(self, name: Seq<char>) -> Option<Node> {
        match self {
            Node::Leaf(_) => None,
            Node::Branch(entries) => if entries.dom().contains(name) {
                Some(entries[name])
            } else {
                None
            },
        }
    }

    /// The node that `segments` lead to from here, one name after the other. No
    /// segments lead to the node itself; nothing is below a file, and nothing
    /// under a name that a directory does not have.
    pub open spec fn resolve(self, segments: Seq<Seq<char>>) -> Option<Node>
        decreases segments.len(),
    {
        if segments.len() == 0 {
            Some(self)
        } else {
            match self.child(segments[0]) {
                Some(below) => below.resolve(segments.drop_first()),
                None => None,
            }
        }
    }

    /// This tree with `node` in the place of what `segments` lead to. Where they
    /// lead nowhere the tree is as it was.
    pub open spec fn graft(self, segments: Seq<Seq<char>>, node: Node) -> Node
        decreases segments.len(),
    {
        if segments.len() == 0 {
            node
        } else {
            match self {
                Node::Leaf(_) => self,
                Node::Branch(entries) => if entries.dom().contains(segments[0]) {
                    Node::Branch(
                        entries.insert(
                            segments[0],
                            entries[segments[0]].graft(segments.drop_first(), node),
                        ),
                    )
                } else {
                    self
                },
            }
        }
    }

    /// This tree with `node` under `name` in the directory that `parent` leads
    /// to, in the place of what that name had.
    pub open spec fn bind(self, parent: Seq<Seq<char>>, name: Seq<char>, node: Node) -> Node {
        match self.resolve(parent) {
            Some(Node::Branch(entries)) => self.graft(
                parent,
                Node::Branch(entries.insert(name, node)),
            ),
            _ => self,
        }
    }
}

/// Putting back what is there changes nothing.
pub proof fn lemma_graft_same(tree: Node, segments: Seq<Seq<char>>)
    requires
        tree.resolve(segments) is Some,
    ensures
        tree.graft(segments, tree.resolve(segments)->0) == tree,
    decreases segments.len(),
{
    if segments.len() > 0 {
        let entries = tree->Branch_0;
        let below = entries[segments[0]];
        lemma_graft_same(below, segments.drop_first());
        assert(entries.insert(segments[0], below) =~= entries);
    }
}

/// What was put in a place is found there.
pub proof fn lemma_resolve_graft(tree: Node, segments: Seq<Seq<char>>, node: Node)
    requires
        tree.resolve(segments) is Some,
    ensures
        tree.graft(segments, node).resolve(segments) == Some(node),
    decreases segments.len(),
{
    if segments.len() > 0 {
        let entries = tree->Branch_0;
        lemma_resolve_graft(entries[segments[0]], segments.drop_first(), node);
    }
}

/// Of two things put in one place the later one stays.
pub proof fn lemma_graft_twice(tree: Node, segments: Seq<Seq<char>>, first: Node, second: Node)
    requires
        tree.resolve(segments) is Some,
    ensures
        tree.graft(segments, first).graft(segments, second) == tree.graft(segments, second),
    decreases segments.len(),
{
    if segments.len() > 0 {
        let entries = tree->Branch_0;
        let below = entries[segments[0]];
        lemma_graft_twice(below, segments.drop_first(), first, second);
        assert(entries.insert(segments[0], below.graft(segments.drop_first(), first)).insert(
            segments[0],
            below.graft(segments.drop_first(), second),
        ) =~= entries.insert(segments[0], below.graft(segments.drop_first(), second)));
    }
}

/// Following `front` and then `back` is following the two as one path.
pub proof fn lemma_resolve_append(tree: Node, front: Seq<Seq<char>>, back: Seq<Seq<char>>)
    ensures
        (front + back).len() == front.len() + back.len(),
        tree.resolve(front + back) == match tree.resolve(front) {
            Some(middle) => middle.resolve(back),
            None => None,
        },
    decreases front.len(),
{
    if front.len() == 0 {
        assert(front + back =~= back);
    } else {
        assert((front + back).drop_first() =~= front.drop_first() + back);
        match tree.child(front[0]) {
            Some(below) => lemma_resolve_append(below, front.drop_first(), back),
            None => {},
        }
    }
}

/// `names` holds the names of `entries`, each once, in ascending order.
pub open spec fn is_name_order(names: Seq<Seq<char>>, entries: Map<Seq<char>, Node>) -> bool {
    &&& forall|i: int, j: int|
        0 <= i < j < names.len() ==> name_before(#[trigger] names[i], #[trigger] names[j])
    &&& forall|name: Seq<char>| entries.dom().contains(name) <==> names.contains(name)
}

/// The names of `entries` in ascending order.
pub open spec fn names_in_order(entries: Map<Seq<char>, Node>) -> Seq<Seq<char>> {
    choose|names: Seq<Seq<char>>| is_name_order(names, entries)
}

/// How an entry is shown in a listing: a directory with a separator after its
/// name, a file by its name alone.
pub open spec fn shown(name: Seq<char>, node: Node) -> Seq<char> {
    match node {
        Node::Leaf(_) => name,
        Node::Branch(_) => name.push(separator()),
    }
}

/// The listing of a directory: one line for each entry, in the order of the
/// names.
pub open spec fn listing(entries: Map<Seq<char>, Node>) -> Seq<Seq<char>> {
    let names = names_in_order(entries);
    Seq::new(names.len(), |i: int| shown(names[i], entries[names[i]]))
}

/// The names of a directory can be put in ascending order in one way only.
pub proof fn lemma_name_order_unique(
    a: Seq<Seq<char>>,
    b: Seq<Seq<char>>,
    entries: Map<Seq<char>, Node>,
)
    requires
        is_name_order(a, entries),
        is_name_order(b, entries),
    ensures
        a == b,
    decreases a.len(),
{
    if a.len() == 0 {
        if b.len() > 0 {
            assert(b.contains(b[0]));
            assert(a.contains(b[0]));
        }
        assert(a =~= b);
    } else {
        assert(a.contains(a[0]));
        assert(b.contains(a[0]));
        assert(b.contains(b[0]));
        assert(a.contains(b[0]));
        let k = choose|k: int| 0 <= k < a.len() && a[k] == b[0];
        let m = choose|m: int| 0 <= m < b.len() && b[m] == a[0];
        lemma_name_before_irreflexive(a[0]);
        lemma_name_before_irreflexive(b[0]);
        if k > 0 && m > 0 {
            assert(name_before(a[0], a[k]));
            assert(name_before(b[0], b[m]));
            lemma_name_before_transitive(a[0], b[0], a[0]);
        } else if k > 0 {
            assert(name_before(a[0], a[k]));
        }
        assert(a[0] == b[0]);
        let rest = entries.remove(a[0]);
        lemma_drop_first_name_order(a, entries);
        lemma_drop_first_name_order(b, entries);
        lemma_name_order_unique(a.drop_first(), b.drop_first(), rest);
        assert(a =~= seq![a[0]] + a.drop_first());
        assert(b =~= seq![b[0]] + b.drop_first());
    }
}

/// Without their first, the names in order are those of the directory without
/// that entry.
proof fn lemma_drop_first_name_order(names: Seq<Seq<char>>, entries: Map<Seq<char>, Node>)
    requires
        is_name_order(names, entries),
        names.len() > 0,
    ensures
        is_name_order(names.drop_first(), entries.remove(names[0])),
{
    let tail = names.drop_first();
    let rest = entries.remove(names[0]);
    lemma_name_before_irreflexive(names[0]);
    assert forall|i: int, j: int| 0 <= i < j < tail.len() implies name_before(
        #[trigger] tail[i],
        #[trigger] tail[j],
    ) by {
        assert(name_before(names[i + 1], names[j + 1]));
    }
    assert forall|name: Seq<char>| rest.dom().contains(name) <==> tail.contains(name) by {
        if rest.dom().contains(name) {
            assert(names.contains(name));
            let k = choose|k: int| 0 <= k < names.len() && names[k] == name;
            assert(tail[k - 1] == name);
        }
        if tail.contains(name) {
            let k = choose|k: int| 0 <= k < tail.len() && tail[k] == name;
            assert(names[k + 1] == name);
            assert(name_before(names[0], names[k + 1]));
            assert(names.contains(name));
        }
    }
}

/// The names of `entries` can be put in ascending order: there are finitely
/// many of them.
pub open spec fn listable(entries: Map<Seq<char>, Node>) -> bool {
    exists|names: Seq<Seq<char>>| is_name_order(names, entries)
}

/// How many of the ordered `names` come before `name`.
pub open spec fn rank(names: Seq<Seq<char>>, name: Seq<char>) -> int
    decreases names.len(),
{
    if names.len() == 0 || !name_before(names[0], name) {
        0
    } else {
        1 + rank(names.drop_first(), name)
    }
}

/// The rank of a new name parts the ordered names into those before it and
/// those after it.
pub proof fn lemma_rank(names: Seq<Seq<char>>, name: Seq<char>)
    requires
        forall|i: int, j: int|
            0 <= i < j < names.len() ==> name_before(#[trigger] names[i], #[trigger] names[j]),
        !names.contains(name),
    ensures
        0 <= rank(names, name) <= names.len(),
        forall|i: int| 0 <= i < rank(names, name) ==> name_before(#[trigger] names[i], name),
        forall|i: int|
            rank(names, name) <= i < names.len() ==> name_before(name, #[trigger] names[i]),
    decreases names.len(),
{
    if names.len() == 0 {
    } else if !name_before(names[0], name) {
        assert(names.contains(names[0]));
        lemma_name_before_total(names[0], name);
        assert forall|i: int| 0 <= i < names.len() implies name_before(
            name,
            #[trigger] names[i],
        ) by {
            if i > 0 {
                assert(name_before(names[0], names[i]));
                lemma_name_before_transitive(name, names[0], names[i]);
            }
        }
    } else {
        let tail = names.drop_first();
        assert forall|i: int, j: int| 0 <= i < j < tail.len() implies name_before(
            #[trigger] tail[i],
            #[trigger] tail[j],
        ) by {
            assert(name_before(names[i + 1], names[j + 1]));
        }
        if tail.contains(name) {
            let k = choose|k: int| 0 <= k < tail.len() && tail[k] == name;
            assert(names[k + 1] == name);
        }
        lemma_rank(tail, name);
        assert forall|i: int| 0 <= i < rank(names, name) implies name_before(
            #[trigger] names[i],
            name,
        ) by {
            if i > 0 {
                assert(names[i] == tail[i - 1]);
            }
        }
        assert forall|i: int| rank(names, name) <= i < names.len() implies name_before(
            name,
            #[trigger] names[i],
        ) by {
            assert(names[i] == tail[i - 1]);
        }
    }
}

/// A directory whose names can be put in order still is such a directory
/// with one more entry, or with another node under one of its names.
pub proof fn lemma_listable_insert(entries: Map<Seq<char>, Node>, name: Seq<char>, node: Node)
    requires
        listable(entries),
    ensures
        listable(entries.insert(name, node)),
{
    let names = choose|names: Seq<Seq<char>>| is_name_order(names, entries);
    let after = entries.insert(name, node);
    if entries.dom().contains(name) {
        assert(is_name_order(names, after));
    } else {
        lemma_rank(names, name);
        let k = rank(names, name);
        let longer = names.insert(k, name);
        assert forall|i: int, j: int| 0 <= i < j < longer.len() implies name_before(
            #[trigger] longer[i],
            #[trigger] longer[j],
        ) by {
            if j < k {
                assert(name_before(names[i], names[j]));
            } else if j == k {
                assert(name_before(names[i], name));
            } else if i < k {
                assert(name_before(names[i], names[j - 1]));
            } else if i == k {
                assert(name_before(name, names[j - 1]));
            } else {
                assert(name_before(names[i - 1], names[j - 1]));
            }
        }
        assert forall|other: Seq<char>| after.dom().contains(other) <==> longer.contains(
            other,
        ) by {
            if after.dom().contains(other) {
                if other == name {
                    assert(longer[k] == other);
                } else {
                    assert(names.contains(other));
                    let i = choose|i: int| 0 <= i < names.len() && names[i] == other;
                    if i < k {
                        assert(longer[i] == other);
                    } else {
                        assert(longer[i + 1] == other);
                    }
                }
            }
            if longer.contains(other) {
                let i = choose|i: int| 0 <= i < longer.len() && longer[i] == other;
                if i < k {
                    assert(names[i] == other);
                    assert(names.contains(other));
                } else if i > k {
                    assert(names[i - 1] == other);
                    assert(names.contains(other));
                }
            }
        }
        assert(is_name_order(longer, after));
    }
}

/// The names of a directory in ascending order hold each name once, so there
/// are as many of them as the directory has entries.
pub proof fn lemma_name_order_count(names: Seq<Seq<char>>, entries: Map<Seq<char>, Node>)
    requires
        is_name_order(names, entries),
    ensures
        names.no_duplicates(),
        entries.dom().finite(),
        names.len() == entries.dom().len(),
{
    assert forall|i: int, j: int| 0 <= i < names.len() && 0 <= j < names.len() && i != j implies names[i]
        != names[j] by {
        lemma_name_before_irreflexive(names[i]);
        if i < j {
            assert(name_before(names[i], names[j]));
        } else {
            assert(name_before(names[j], names[i]));
        }
    }
    assert(names.to_set() =~= entries.dom());
    vstd::seq_lib::seq_to_set_is_finite(names);
    names.unique_seq_to_set();
}

/// The listing of a directory with valid names has one line for each entry
/// and no line twice.
pub proof fn lemma_listing_distinct(entries: Map<Seq<char>, Node>)
    requires
        listable(entries),
        forall|name: Seq<char>| entries.dom().contains(name) ==> valid_name(name),
    ensures
        listing(entries).no_duplicates(),
        entries.dom().finite(),
        listing(entries).len() == entries.dom().len(),
{
    let names = names_in_order(entries);
    let lines = listing(entries);
    lemma_name_order_count(names, entries);
    assert forall|i: int, j: int| 0 <= i < lines.len() && 0 <= j < lines.len() && i != j implies lines[i]
        != lines[j] by {
        assert(names.contains(names[i]));
        assert(names.contains(names[j]));
        assert(valid_name(names[i]) && valid_name(names[j]));
        assert(names[i] != names[j]);
        lemma_shown_distinct(names[i], entries[names[i]], names[j], entries[names[j]]);
    }
}

/// Two entries under different valid names are shown differently.
pub proof fn lemma_shown_distinct(a: Seq<char>, node_a: Node, b: Seq<char>, node_b: Node)
    requires
        valid_name(a),
        valid_name(b),
        a != b,
    ensures
        shown(a, node_a) != shown(b, node_b),
{
    if shown(a, node_a) == shown(b, node_b) {
        if node_a is Branch && node_b is Branch {
            assert(a.push(separator()).drop_last() =~= a);
            assert(b.push(separator()).drop_last() =~= b);
        } else if node_a is Branch {
            assert(a.push(separator())[a.len() as int] == separator());
            assert(b.contains(separator()));
        } else if node_b is Branch {
            assert(b.push(separator())[b.len() as int] == separator());
            assert(a.contains(separator()));
        }
    }
}

/// Every entry of a directory whose names can be put in order has its line
/// in the listing.
pub proof fn lemma_listing_shows(entries: Map<Seq<char>, Node>, name: Seq<char>)
    requires
        listable(entries),
        entries.dom().contains(name),
    ensures
        listing(entries).contains(shown(name, entries[name])),
{
    let names = names_in_order(entries);
    assert(names.contains(name));
    let i = choose|i: int| 0 <= i < names.len() && names[i] == name;
    assert(listing(entries)[i] == shown(name, entries[name]));
}

/// Every line of a listing is the line of an entry.
pub proof fn lemma_listing_shown(entries: Map<Seq<char>, Node>, line: Seq<char>)
    requires
        listable(entries),
        listing(entries).contains(line),
    ensures
        exists|name: Seq<char>|
            entries.dom().contains(name) && line == #[trigger] shown(name, entries[name]),
{
    let names = names_in_order(entries);
    let i = choose|i: int| 0 <= i < listing(entries).len() && listing(entries)[i] == line;
    assert(names.contains(names[i]));
    assert(line == shown(names[i], entries[names[i]]));
}

impl Node {
    /// Every directory of the tree has finitely many entries, each under a
    /// valid name.
    pub open spec fn valid(self) -> bool
        decreases self,
    {
        match self {
            Node::Leaf(_) => true,
            Node::Branch(entries) => {
                &&& entries.dom().finite()
                &&& listable(entries)
                &&& forall|name: Seq<char>|
                    entries.dom().contains(name) ==> valid_name(name) && (
                    #[trigger] entries[name]).valid()
            },
        }
    }
}

/// What a path leads to in a valid tree is a valid tree.
pub proof fn lemma_resolve_valid(tree: Node, segments: Seq<Seq<char>>)
    requires
        tree.valid(),
        tree.resolve(segments) is Some,
    ensures
        tree.resolve(segments)->0.valid(),
    decreases segments.len(),
{
    if segments.len() > 0 {
        lemma_resolve_valid(tree.child(segments[0])->0, segments.drop_first());
    }
}

impl Node {
    /// What reading the file at `path` gives: its bytes, where the path leads
    /// to a file.
    pub open spec fn read(self, path: Seq<char>) -> Result<Seq<u8>, Failure> {
        match self.resolve(segments_of(path)) {
            Some(Node::Leaf(content)) => Ok(content),
            _ => Err(Failure::NoSuchFile),
        }
    }

    /// What listing `path` gives: for a directory the listing of its entries,
    /// for a file the path as it was given.
    pub open spec fn list(self, path: Seq<char>) -> Result<Seq<Seq<char>>, Failure> {
        match self.resolve(segments_of(path)) {
            Some(Node::Leaf(_)) => Ok(seq![path]),
            Some(Node::Branch(entries)) => Ok(listing(entries)),
            None => Err(Failure::NoSuchFile),
        }
    }

    /// What writing `content` to `path` makes of the tree. The path has to name
    /// something, its directory has to be there, and what it names may not be a
    /// directory.
    pub open spec fn write(self, path: Seq<char>, content: Seq<u8>) -> Result<Node, Failure> {
        let segments = segments_of(path);
        if segments.len() == 0 {
            Err(Failure::IllegalFilename)
        } else {
            let name = segments.last();
            match self.resolve(segments.drop_last()) {
                Some(Node::Branch(entries)) => if entries.dom().contains(name)
                    && entries[name] is Branch {
                    Err(Failure::WriteToDirectory)
                } else {
                    Ok(self.bind(segments.drop_last(), name, Node::Leaf(content)))
                },
                _ => Err(Failure::NoSuchDirectory),
            }
        }
    }

    /// What making a directory at `path` makes of the tree. The path has to
    /// name something and its directory has to be there; a directory that is
    /// there already stays as it is, and a file in its place is in the way.
    pub open spec fn mkdir(self, path: Seq<char>) -> Result<Node, Failure> {
        let segments = segments_of(path);
        if segments.len() == 0 {
            Err(Failure::IllegalDirname)
        } else {
            let name = segments.last();
            match self.resolve(segments.drop_last()) {
                Some(Node::Branch(entries)) => if !entries.dom().contains(name) {
                    Ok(self.bind(segments.drop_last(), name, Node::empty()))
                } else if entries[name] is Branch {
                    Ok(self)
                } else {
                    Err(Failure::FileExists)
                },
                _ => Err(Failure::NoSuchDirectory),
            }
        }
    }
}

} // verus!
