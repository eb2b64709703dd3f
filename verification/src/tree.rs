use crate::model::{is_name_order, lemma_name_order_unique, listing, names_in_order, shown, Node};
use crate::order::{
    comes_before, lemma_name_before_irreflexive, lemma_name_before_total,
    lemma_name_before_transitive, name_before,
};
use crate::path::{separator, valid_name};
use vstd::prelude::*;

verus! {

/// A node of the store: a file, or a directory with its entries.
#[derive(Debug)]
pub enum Tree {
    Leaf(Vec<u8>),
    Parent(Children),
}

/// The entries of a directory, kept in the order of their names, each name
/// once.
#[derive(Debug)]
pub struct Children {
    pub entries: Vec<(String, Tree)>,
}

/// Whether an entry of `entries` bears `name`.
pub open spec fn has_name(entries: Seq<(String, Tree)>, name: Seq<char>) -> bool {
    exists|i: int| 0 <= i < entries.len() && #[trigger] entries[i].0@ == name
}

/// Where the entry that bears `name` stands in `entries`.
pub open spec fn index_of(entries: Seq<(String, Tree)>, name: Seq<char>) -> int {
    choose|i: int| 0 <= i < entries.len() && #[trigger] entries[i].0@ == name
}

/// The names of `entries` stand in strictly ascending order.
pub open spec fn names_sorted(entries: Seq<(String, Tree)>) -> bool {
    forall|i: int, j: int|
        0 <= i < j < entries.len() ==> name_before(
            #[trigger] entries[i].0@,
            #[trigger] entries[j].0@,
        )
}

/// The map from each name in `entries` to the node stored under it.
pub open spec fn entries_map(entries: Seq<(String, Tree)>) -> Map<Seq<char>, Node>
    decreases entries,
{
    Map::new(
        |name: Seq<char>| has_name(entries, name),
        |name: Seq<char>|
            {
                let i = index_of(entries, name);
                if 0 <= i < entries.len() {
                    entries[i].1.view()
                } else {
                    Node::Leaf(Seq::empty())
                }
            },
    )
}

/// The names are in order and valid, and so it is below every entry.
pub open spec fn entries_well_formed(entries: Seq<(String, Tree)>) -> bool
    decreases entries,
{
    &&& names_sorted(entries)
    &&& forall|i: int|
        0 <= i < entries.len() ==> valid_name((#[trigger] entries[i]).0@)
            && entries[i].1.well_formed()
}

impl Children {
    /// The names stand in strictly ascending order.
    pub open spec fn sorted(&self) -> bool {
        names_sorted(self.entries@)
    }

    /// The directory as a map from names to nodes.
    pub open spec fn view(&self) -> Map<Seq<char>, Node>
        decreases self,
    {
        entries_map(self.entries@)
    }

    /// The names are in order and valid, and so it is below every entry.
    pub open spec fn well_formed(&self) -> bool
        decreases self,
    {
        entries_well_formed(self.entries@)
    }
}

impl Tree {
    /// The node that this tree stands for.
    pub open spec fn view(&self) -> Node
        decreases self,
    {
        match self {
            Tree::Leaf(content) => Node::Leaf(content@),
            Tree::Parent(children) => Node::Branch(children.view()),
        }
    }

    /// Every directory in the tree keeps its entries in order under valid names.
    pub open spec fn well_formed(&self) -> bool
        decreases self,
    {
        match self {
            Tree::Leaf(_) => true,
            Tree::Parent(children) => children.well_formed(),
        }
    }
}

/// In ordered entries a name stands at one place only, and the map holds what
/// is stored there.
pub proof fn lemma_entry(entries: Seq<(String, Tree)>, i: int)
    requires
        names_sorted(entries),
        0 <= i < entries.len(),
    ensures
        has_name(entries, entries[i].0@),
        index_of(entries, entries[i].0@) == i,
        entries_map(entries).dom().contains(entries[i].0@),
        entries_map(entries)[entries[i].0@] == entries[i].1@,
{
    let name = entries[i].0@;
    let j = index_of(entries, name);
    lemma_name_before_irreflexive(name);
    if j < i {
        assert(name_before(entries[j].0@, entries[i].0@));
    } else if i < j {
        assert(name_before(entries[i].0@, entries[j].0@));
    }
}

/// Putting another tree under the name at `i` binds that name anew in the map
/// and leaves the rest as it was.
pub proof fn lemma_replace(entries: Seq<(String, Tree)>, i: int, tree: Tree)
    requires
        names_sorted(entries),
        0 <= i < entries.len(),
    ensures
        names_sorted(entries.update(i, (entries[i].0, tree))),
        entries_map(entries.update(i, (entries[i].0, tree))) == entries_map(entries).insert(
            entries[i].0@,
            tree@,
        ),
        entries_well_formed(entries) && tree.well_formed() ==> entries_well_formed(
            entries.update(i, (entries[i].0, tree)),
        ),
{
    let after = entries.update(i, (entries[i].0, tree));
    assert forall|a: int, b: int| 0 <= a < b < after.len() implies name_before(
        #[trigger] after[a].0@,
        #[trigger] after[b].0@,
    ) by {
        assert(name_before(entries[a].0@, entries[b].0@));
    }
    assert forall|name: Seq<char>| has_name(after, name) == has_name(entries, name) by {
        if has_name(after, name) {
            let k = index_of(after, name);
            assert(entries[k].0@ == name);
        }
        if has_name(entries, name) {
            let k = index_of(entries, name);
            assert(after[k].0@ == name);
        }
    }
    let expected = entries_map(entries).insert(entries[i].0@, tree@);
    lemma_entry(entries, i);
    assert forall|name: Seq<char>| entries_map(after).dom().contains(name) implies entries_map(
        after,
    )[name] == expected[name] by {
        let k = index_of(after, name);
        lemma_entry(after, k);
        if k != i {
            lemma_entry(entries, k);
        }
    }
    assert(entries_map(after) =~= expected);
    if entries_well_formed(entries) && tree.well_formed() {
        assert forall|j: int| 0 <= j < after.len() implies valid_name((#[trigger] after[j]).0@)
            && after[j].1.well_formed() by {
            assert(valid_name(entries[j].0@) && entries[j].1.well_formed());
        }
    }
}

/// A new entry put between the names before it and the names after it binds
/// its name in the map and leaves the rest as it was.
pub proof fn lemma_insert(entries: Seq<(String, Tree)>, i: int, name: String, tree: Tree)
    requires
        names_sorted(entries),
        0 <= i <= entries.len(),
        forall|j: int| 0 <= j < i ==> name_before((#[trigger] entries[j]).0@, name@),
        forall|j: int| i <= j < entries.len() ==> name_before(name@, (#[trigger] entries[j]).0@),
    ensures
        names_sorted(entries.insert(i, (name, tree))),
        entries_map(entries.insert(i, (name, tree))) == entries_map(entries).insert(name@, tree@),
        entries_well_formed(entries) && valid_name(name@) && tree.well_formed()
            ==> entries_well_formed(entries.insert(i, (name, tree))),
{
    let after = entries.insert(i, (name, tree));
    assert forall|a: int, b: int| 0 <= a < b < after.len() implies name_before(
        #[trigger] after[a].0@,
        #[trigger] after[b].0@,
    ) by {
        if b < i {
            assert(name_before(entries[a].0@, entries[b].0@));
        } else if b == i {
            assert(name_before(entries[a].0@, name@));
        } else if a < i {
            assert(name_before(entries[a].0@, entries[b - 1].0@));
        } else if a == i {
            assert(name_before(name@, entries[b - 1].0@));
        } else {
            assert(name_before(entries[a - 1].0@, entries[b - 1].0@));
        }
    }
    let expected = entries_map(entries).insert(name@, tree@);
    assert forall|other: Seq<char>| has_name(after, other) == (has_name(entries, other) || other
        == name@) by {
        if has_name(after, other) {
            let k = index_of(after, other);
            if k < i {
                assert(entries[k].0@ == other);
            } else if k > i {
                assert(entries[k - 1].0@ == other);
            }
        }
        if has_name(entries, other) {
            let k = index_of(entries, other);
            if k < i {
                assert(after[k].0@ == other);
            } else {
                assert(after[k + 1].0@ == other);
            }
        }
        if other == name@ {
            assert(after[i].0@ == other);
        }
    }
    assert forall|other: Seq<char>| entries_map(after).dom().contains(other) implies entries_map(
        after,
    )[other] == expected[other] by {
        let k = index_of(after, other);
        lemma_entry(after, k);
        lemma_name_before_irreflexive(name@);
        if k < i {
            assert(name_before(entries[k].0@, name@));
            lemma_entry(entries, k);
        } else if k > i {
            assert(name_before(name@, entries[k - 1].0@));
            lemma_entry(entries, k - 1);
        }
    }
    assert(entries_map(after) =~= expected);
    if entries_well_formed(entries) && valid_name(name@) && tree.well_formed() {
        assert forall|j: int| 0 <= j < after.len() implies valid_name((#[trigger] after[j]).0@)
            && after[j].1.well_formed() by {
            if j < i {
                assert(valid_name(entries[j].0@) && entries[j].1.well_formed());
            } else if j > i {
                assert(valid_name(entries[j - 1].0@) && entries[j - 1].1.well_formed());
            }
        }
    }
}

/// The names of `entries`, as they are stored.
pub open spec fn names_of(entries: Seq<(String, Tree)>) -> Seq<Seq<char>> {
    Seq::new(entries.len(), |i: int| entries[i].0@)
}

/// The names of ordered entries, as they are stored, are the names of their
/// map in ascending order.
pub proof fn lemma_names(entries: Seq<(String, Tree)>)
    requires
        names_sorted(entries),
    ensures
        is_name_order(names_of(entries), entries_map(entries)),
        names_in_order(entries_map(entries)) == names_of(entries),
{
    let names = names_of(entries);
    let map = entries_map(entries);
    assert forall|name: Seq<char>| map.dom().contains(name) <==> names.contains(name) by {
        if map.dom().contains(name) {
            let k = index_of(entries, name);
            assert(names[k] == name);
        }
        if names.contains(name) {
            let k = choose|k: int| 0 <= k < names.len() && names[k] == name;
            assert(entries[k].0@ == name);
        }
    }
    assert forall|i: int, j: int| 0 <= i < j < names.len() implies name_before(
        #[trigger] names[i],
        #[trigger] names[j],
    ) by {
        assert(name_before(entries[i].0@, entries[j].0@));
    }
    assert(is_name_order(names, map));
    lemma_name_order_unique(names_in_order(map), names, map);
}

/// The listing of ordered entries shows them one by one as they are stored.
pub proof fn lemma_listing(entries: Seq<(String, Tree)>)
    requires
        names_sorted(entries),
    ensures
        listing(entries_map(entries)).len() == entries.len(),
        forall|i: int|
            0 <= i < entries.len() ==> #[trigger] listing(entries_map(entries))[i] == shown(
                entries[i].0@,
                entries[i].1@,
            ),
{
    lemma_names(entries);
    assert forall|i: int| 0 <= i < entries.len() implies #[trigger] listing(
        entries_map(entries),
    )[i] == shown(entries[i].0@, entries[i].1@) by {
        lemma_entry(entries, i);
    }
}

/// A well-formed tree stands for a valid node.
pub proof fn lemma_view_valid(tree: Tree)
    requires
        tree.well_formed(),
    ensures
        tree@.valid(),
    decreases tree,
{
    match tree {
        Tree::Leaf(_) => {},
        Tree::Parent(children) => {
            let entries = children.entries@;
            let map = entries_map(entries);
            lemma_names(entries);
            assert(map.dom() =~= names_of(entries).to_set());
            vstd::seq_lib::seq_to_set_is_finite(names_of(entries));
            assert forall|name: Seq<char>| map.dom().contains(name) implies valid_name(name) && (
            #[trigger] map[name]).valid() by {
                let k = index_of(entries, name);
                lemma_entry(entries, k);
                assert(valid_name(entries[k].0@) && entries[k].1.well_formed());
                lemma_view_valid(entries[k].1);
            }
        },
    }
}

impl Children {
    /// A directory without entries.
    pub fn new() -> (r: Children)
        ensures
            r@ == Map::<Seq<char>, Node>::empty(),
            r.well_formed(),
    {
        let r = Children { entries: Vec::new() };
        assert(r@ =~= Map::<Seq<char>, Node>::empty());
        r
    }

    /// Looks `name` up among the ordered entries: where it stands, or else
    /// where it would have to be put.
    pub fn search(&self, name: &str) -> (r: Result<usize, usize>)
        requires
            self.sorted(),
        ensures
            match r {
                Ok(i) => i < self.entries@.len() && self.entries@[i as int].0@ == name@,
                Err(i) => {
                    &&& i <= self.entries@.len()
                    &&& !self@.dom().contains(name@)
                    &&& forall|j: int|
                        0 <= j < i ==> name_before((#[trigger] self.entries@[j]).0@, name@)
                    &&& forall|j: int|
                        i <= j < self.entries@.len() ==> name_before(
                            name@,
                            (#[trigger] self.entries@[j]).0@,
                        )
                },
            },
    {
        let mut lo: usize = 0;
        let mut hi: usize = self.entries.len();
        while lo < hi
            invariant
                self.sorted(),
                lo <= hi <= self.entries@.len(),
                forall|j: int| 0 <= j < lo ==> name_before((#[trigger] self.entries@[j]).0@, name@),
                forall|j: int|
                    hi <= j < self.entries@.len() ==> !name_before(
                        (#[trigger] self.entries@[j]).0@,
                        name@,
                    ),
            decreases hi - lo,
        {
            let mid: usize = lo + (hi - lo) / 2;
            if comes_before(self.entries[mid].0.as_str(), name) {
                proof {
                    assert forall|j: int| 0 <= j < mid + 1 implies name_before(
                        (#[trigger] self.entries@[j]).0@,
                        name@,
                    ) by {
                        if j < mid {
                            assert(name_before(self.entries@[j].0@, self.entries@[mid as int].0@));
                            lemma_name_before_transitive(
                                self.entries@[j].0@,
                                self.entries@[mid as int].0@,
                                name@,
                            );
                        }
                    }
                }
                lo = mid + 1;
            } else {
                proof {
                    assert forall|j: int| mid <= j < self.entries@.len() implies !name_before(
                        (#[trigger] self.entries@[j]).0@,
                        name@,
                    ) by {
                        if mid < j && name_before(self.entries@[j].0@, name@) {
                            assert(name_before(self.entries@[mid as int].0@, self.entries@[j].0@));
                            lemma_name_before_transitive(
                                self.entries@[mid as int].0@,
                                self.entries@[j].0@,
                                name@,
                            );
                        }
                    }
                }
                hi = mid;
            }
        }
        if lo < self.entries.len() && !comes_before(name, self.entries[lo].0.as_str()) {
            proof {
                lemma_name_before_total(name@, self.entries@[lo as int].0@);
            }
            Ok(lo)
        } else {
            proof {
                assert forall|j: int| lo <= j < self.entries@.len() implies name_before(
                    name@,
                    (#[trigger] self.entries@[j]).0@,
                ) by {
                    if lo < j {
                        assert(name_before(self.entries@[lo as int].0@, self.entries@[j].0@));
                        lemma_name_before_transitive(
                            name@,
                            self.entries@[lo as int].0@,
                            self.entries@[j].0@,
                        );
                    }
                }
                lemma_name_before_irreflexive(name@);
                if has_name(self.entries@, name@) {
                    let k = index_of(self.entries@, name@);
                    assert(self.entries@[k].0@ == name@);
                    if k < lo {
                        assert(name_before(self.entries@[k].0@, name@));
                    } else {
                        assert(name_before(name@, self.entries@[k].0@));
                    }
                }
            }
            Err(lo)
        }
    }

    /// The tree under `name`, if the directory has one.
    pub fn get(&self, name: &str) -> (r: Option<&Tree>)
        requires
            self.sorted(),
        ensures
            match r {
                Some(tree) => {
                    &&& self@.dom().contains(name@)
                    &&& tree@ == self@[name@]
                    &&& self.well_formed() ==> tree.well_formed()
                },
                None => !self@.dom().contains(name@),
            },
    {
        match self.search(name) {
            Ok(i) => {
                proof {
                    lemma_entry(self.entries@, i as int);
                }
                Some(&self.entries[i].1)
            },
            Err(_) => None,
        }
    }

    /// The tree under `name`, to be changed in place: the directory then holds
    /// under `name` whatever the tree has become, and all else as before.
    pub fn get_mut(&mut self, name: &str) -> (r: Option<&mut Tree>)
        requires
            old(self).sorted(),
        ensures
            match r {
                Some(tree) => {
                    &&& old(self)@.dom().contains(name@)
                    &&& tree@ == old(self)@[name@]
                    &&& old(self).well_formed() ==> tree.well_formed()
                    &&& final(self).sorted()
                    &&& final(self)@ == old(self)@.insert(name@, final(tree)@)
                    &&& old(self).well_formed() && final(tree).well_formed()
                        ==> final(self).well_formed()
                },
                None => !old(self)@.dom().contains(name@) && *final(self) == *old(self),
            },
    {
        match self.search(name) {
            Ok(i) => {
                proof {
                    lemma_entry(self.entries@, i as int);
                }
                let tree = &mut self.entries[i].1;
                proof {
                    lemma_replace(old(self).entries@, i as int, *final(tree));
                }
                Some(tree)
            },
            Err(_) => None,
        }
    }

    /// Puts `tree` under `name`, in the place of what the name had, and hands
    /// back what it had.
    pub fn insert(&mut self, name: String, tree: Tree) -> (r: Option<Tree>)
        requires
            old(self).sorted(),
        ensures
            final(self).sorted(),
            final(self)@ == old(self)@.insert(name@, tree@),
            match r {
                Some(before) => old(self)@.dom().contains(name@) && before@ == old(self)@[name@],
                None => !old(self)@.dom().contains(name@),
            },
            old(self).well_formed() && valid_name(name@) && tree.well_formed()
                ==> final(self).well_formed(),
    {
        match self.search(name.as_str()) {
            Ok(i) => {
                proof {
                    lemma_entry(self.entries@, i as int);
                    lemma_replace(self.entries@, i as int, tree);
                }
                let mut held = tree;
                core::mem::swap(&mut self.entries[i].1, &mut held);
                Some(held)
            },
            Err(i) => {
                proof {
                    lemma_insert(self.entries@, i as int, name, tree);
                }
                self.entries.insert(i, (name, tree));
                None
            },
        }
    }
}

impl Children {
    /// One line for each entry, in the order of the names: a directory with a
    /// separator after its name, a file by its name alone.
    pub fn listing(&self) -> (r: Vec<String>)
        requires
            self.sorted(),
        ensures
            r.deep_view() == listing(self@),
    {
        let mut lines: Vec<String> = Vec::new();
        let mut i: usize = 0;
        proof {
            lemma_listing(self.entries@);
            reveal_strlit("/");
        }
        while i < self.entries.len()
            invariant
                i <= self.entries@.len(),
                lines@.len() == i,
                "/"@ == seq![separator()],
                forall|k: int|
                    0 <= k < self.entries@.len() ==> #[trigger] listing(self@)[k] == shown(
                        self.entries@[k].0@,
                        self.entries@[k].1@,
                    ),
                forall|k: int| 0 <= k < i ==> (#[trigger] lines@[k])@ == listing(self@)[k],
            decreases self.entries@.len() - i,
        {
            let name = self.entries[i].0.clone();
            let line = match &self.entries[i].1 {
                Tree::Parent(_) => name.concat("/"),
                Tree::Leaf(_) => name,
            };
            proof {
                let shown_name = self.entries@[i as int].0@;
                assert(shown_name + seq![separator()] =~= shown_name.push(separator()));
            }
            lines.push(line);
            i += 1;
        }
        proof {
            assert(lines.deep_view() =~= listing(self@));
        }
        lines
    }
}

impl Tree {
    /// A directory without entries.
    pub fn empty() -> (r: Tree)
        ensures
            r@ == Node::empty(),
            r.well_formed(),
    {
        Tree::Parent(Children::new())
    }

    /// The entries, where this is a directory.
    pub fn children(&self) -> (r: Option<&Children>)
        ensures
            match *self {
                Tree::Leaf(_) => r is None,
                Tree::Parent(children) => r == Some(&children),
            },
    {
        match self {
            Tree::Leaf(_) => None,
            Tree::Parent(children) => Some(children),
        }
    }

    /// The entries, where this is a directory, to be changed in place.
    pub fn children_mut(&mut self) -> (r: Option<&mut Children>)
        ensures
            match *old(self) {
                Tree::Leaf(_) => r is None && *final(self) == *old(self),
                Tree::Parent(children) => match r {
                    Some(entries) => *entries == children && *final(self) == Tree::Parent(
                        *final(entries),
                    ),
                    None => false,
                },
            },
    {
        match self {
            Tree::Leaf(_) => None,
            Tree::Parent(children) => Some(children),
        }
    }

    /// The tree that `path` leads to from here, one name after the other.
    pub fn get(&self, path: &Vec<String>) -> (r: Option<&Tree>)
        requires
            self.well_formed(),
        ensures
            match r {
                Some(tree) => self@.resolve(path.deep_view()) == Some(tree@) && tree.well_formed(),
                None => self@.resolve(path.deep_view()) is None,
            },
    {
        let ghost segments = path.deep_view();
        let mut node = self;
        let mut i: usize = 0;
        proof {
            assert(segments.skip(0) =~= segments);
        }
        while i < path.len()
            invariant
                i <= path.len(),
                segments == path.deep_view(),
                node.well_formed(),
                self@.resolve(segments) == node@.resolve(segments.skip(i as int)),
            decreases path.len() - i,
        {
            proof {
                assert(segments.skip(i as int).drop_first() =~= segments.skip(i + 1));
                assert(segments.skip(i as int)[0] == path@[i as int]@);
            }
            match node.children() {
                None => {
                    return None;
                },
                Some(children) => match children.get(path[i].as_str()) {
                    None => {
                        return None;
                    },
                    Some(below) => {
                        node = below;
                    },
                },
            }
            i += 1;
        }
        proof {
            assert(segments.skip(i as int) =~= Seq::<Seq<char>>::empty());
        }
        Some(node)
    }

    /// The tree that `path` leads to from here, to be changed in place: this
    /// tree then holds in that place whatever the tree has become, and all
    /// else as before.
    pub fn get_mut(&mut self, path: &Vec<String>) -> (r: Option<&mut Tree>)
        requires
            old(self).well_formed(),
        ensures
            match r {
                Some(tree) => {
                    &&& old(self)@.resolve(path.deep_view()) == Some(tree@)
                    &&& tree.well_formed()
                    &&& final(self)@ == old(self)@.graft(path.deep_view(), final(tree)@)
                    &&& final(tree).well_formed() ==> final(self).well_formed()
                },
                None => {
                    &&& old(self)@.resolve(path.deep_view()) is None
                    &&& final(self)@ == old(self)@
                    &&& final(self).well_formed()
                },
            },
    {
        proof {
            assert(path.deep_view().skip(0) =~= path.deep_view());
        }
        self.get_mut_from(path, 0)
    }

    /// As `get_mut`, by the segments of `path` from the one at `from` on.
    fn get_mut_from(&mut self, path: &Vec<String>, from: usize) -> (r: Option<&mut Tree>)
        requires
            old(self).well_formed(),
            from <= path.len(),
        ensures
            match r {
                Some(tree) => {
                    &&& old(self)@.resolve(path.deep_view().skip(from as int)) == Some(tree@)
                    &&& tree.well_formed()
                    &&& final(self)@ == old(self)@.graft(
                        path.deep_view().skip(from as int),
                        final(tree)@,
                    )
                    &&& final(tree).well_formed() ==> final(self).well_formed()
                },
                None => {
                    &&& old(self)@.resolve(path.deep_view().skip(from as int)) is None
                    &&& final(self)@ == old(self)@
                    &&& final(self).well_formed()
                },
            },
        decreases path.len() - from,
    {
        let ghost rest = path.deep_view().skip(from as int);
        if from == path.len() {
            return Some(self);
        }
        proof {
            assert(rest.drop_first() =~= path.deep_view().skip(from + 1));
            assert(rest[0] == path@[from as int]@);
        }
        match self {
            Tree::Leaf(_) => None,
            Tree::Parent(children) => match children.get_mut(path[from].as_str()) {
                None => None,
                Some(below) => {
                    let r = below.get_mut_from(path, from + 1);
                    proof {
                        let entries = old(self)@->Branch_0;
                        if r is None {
                            assert(entries.insert(rest[0], entries[rest[0]]) =~= entries);
                        }
                    }
                    r
                },
            },
        }
    }
}

} // verus!
