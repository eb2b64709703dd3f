use crate::model::{
    lemma_graft_same, lemma_graft_twice, lemma_listable_insert, lemma_listing_distinct,
    lemma_listing_shown, lemma_listing_shows, lemma_resolve_append, lemma_resolve_graft,
    lemma_resolve_valid, listable, listing, shown, Node,
};
use crate::path::{lemma_segments_valid, segments_of, valid_name};
use crate::status::Failure;
use vstd::prelude::*;

verus! {

/// No segments lead to the tree itself.
pub proof fn law_empty_path_is_the_root(root: Node)
    ensures
        root.resolve(Seq::empty()) == Some(root),
{
}

/// Nothing is below a file: a path that goes on after it has reached a file
/// leads nowhere.
pub proof fn law_nothing_below_a_file(root: Node, front: Seq<Seq<char>>, back: Seq<Seq<char>>)
    requires
        root.resolve(front) is Some,
        root.resolve(front)->0 is Leaf,
        back.len() > 0,
    ensures
        root.resolve(front + back) is None,
{
    lemma_resolve_append(root, front, back);
}

/// A path has something at its end only where all but its last segment lead
/// to a directory that has the last one as a name.
pub proof fn lemma_resolve_last(root: Node, segments: Seq<Seq<char>>)
    requires
        segments.len() > 0,
    ensures
        root.resolve(segments) == match root.resolve(segments.drop_last()) {
            Some(parent) => parent.child(segments.last()),
            None => None,
        },
{
    let front = segments.drop_last();
    let back = seq![segments.last()];
    assert(segments =~= front + back);
    lemma_resolve_append(root, front, back);
    if let Some(parent) = root.resolve(front) {
        if let Some(below) = parent.child(back[0]) {
            assert(below.resolve(back.drop_first()) == Some(below));
        }
        assert(parent.resolve(back) == parent.child(back[0]));
    }
}

/// What was written to a path is what reading the path gives.
pub proof fn law_write_then_read(root: Node, path: Seq<char>, content: Seq<u8>)
    requires
        root.write(path, content) is Ok,
    ensures
        root.write(path, content)->Ok_0.read(path) == Ok::<Seq<u8>, Failure>(content),
{
    let segments = segments_of(path);
    let after = root.write(path, content)->Ok_0;
    lemma_resolve_graft(
        root,
        segments.drop_last(),
        Node::Branch(
            root.resolve(segments.drop_last())->0->Branch_0.insert(
                segments.last(),
                Node::Leaf(content),
            ),
        ),
    );
    lemma_resolve_last(after, segments);
}

/// Of two writes to one path the later one is what reading gives.
pub proof fn law_last_write_wins(root: Node, path: Seq<char>, first: Seq<u8>, second: Seq<u8>)
    requires
        root.write(path, first) is Ok,
    ensures
        root.write(path, first)->Ok_0.write(path, second) is Ok,
        root.write(path, first)->Ok_0.write(path, second)->Ok_0.read(path) == Ok::<
            Seq<u8>,
            Failure,
        >(second),
{
    let segments = segments_of(path);
    let after = root.write(path, first)->Ok_0;
    lemma_resolve_graft(
        root,
        segments.drop_last(),
        Node::Branch(
            root.resolve(segments.drop_last())->0->Branch_0.insert(
                segments.last(),
                Node::Leaf(first),
            ),
        ),
    );
    law_write_then_read(after, path, second);
}

/// A write never puts a file in the place of a directory: on a path that
/// leads to a directory it fails, whatever the content.
pub proof fn law_write_spares_directories(root: Node, path: Seq<char>, content: Seq<u8>)
    requires
        segments_of(path).len() > 0,
        root.resolve(segments_of(path)) is Some,
        root.resolve(segments_of(path))->0 is Branch,
    ensures
        root.write(path, content) == Err::<Node, Failure>(Failure::WriteToDirectory),
{
    lemma_resolve_last(root, segments_of(path));
}

/// A write makes no directory on its way: where the directory of the path is
/// missing, or is a file, it fails.
pub proof fn law_write_needs_the_directory(root: Node, path: Seq<char>, content: Seq<u8>)
    requires
        segments_of(path).len() > 0,
        !(root.resolve(segments_of(path).drop_last()) is Some && root.resolve(
            segments_of(path).drop_last(),
        )->0 is Branch),
    ensures
        root.write(path, content) == Err::<Node, Failure>(Failure::NoSuchDirectory),
        root.mkdir(path) == Err::<Node, Failure>(Failure::NoSuchDirectory),
{
}

/// Making a directory where one is already leaves the tree as it is.
pub proof fn law_mkdir_keeps_a_directory(root: Node, path: Seq<char>)
    requires
        segments_of(path).len() > 0,
        root.resolve(segments_of(path)) is Some,
        root.resolve(segments_of(path))->0 is Branch,
    ensures
        root.mkdir(path) == Ok::<Node, Failure>(root),
{
    lemma_resolve_last(root, segments_of(path));
}

/// Making a directory a second time succeeds and changes nothing.
pub proof fn law_mkdir_twice(root: Node, path: Seq<char>)
    requires
        root.mkdir(path) is Ok,
    ensures
        root.mkdir(path)->Ok_0.mkdir(path) == root.mkdir(path),
{
    let segments = segments_of(path);
    let entries = root.resolve(segments.drop_last())->0->Branch_0;
    if !entries.dom().contains(segments.last()) {
        lemma_resolve_graft(
            root,
            segments.drop_last(),
            Node::Branch(entries.insert(segments.last(), Node::empty())),
        );
    }
}

/// After a directory was made, its path leads to a directory.
pub proof fn law_mkdir_then_resolve(root: Node, path: Seq<char>)
    requires
        root.mkdir(path) is Ok,
    ensures
        root.mkdir(path)->Ok_0.resolve(segments_of(path)) is Some,
        root.mkdir(path)->Ok_0.resolve(segments_of(path))->0 is Branch,
{
    let segments = segments_of(path);
    let after = root.mkdir(path)->Ok_0;
    let entries = root.resolve(segments.drop_last())->0->Branch_0;
    if !entries.dom().contains(segments.last()) {
        lemma_resolve_graft(
            root,
            segments.drop_last(),
            Node::Branch(entries.insert(segments.last(), Node::empty())),
        );
    }
    lemma_resolve_last(after, segments);
}

/// Two writes to different names in one directory do not get in each other's
/// way: where each alone succeeds, they succeed one after the other in either
/// order, the tree is the same in the end, and both contents can be read.
pub proof fn law_writes_to_distinct_names_commute(
    root: Node,
    one: Seq<char>,
    one_content: Seq<u8>,
    other: Seq<char>,
    other_content: Seq<u8>,
)
    requires
        root.write(one, one_content) is Ok,
        root.write(other, other_content) is Ok,
        segments_of(one).drop_last() == segments_of(other).drop_last(),
        segments_of(one).last() != segments_of(other).last(),
    ensures
        root.write(one, one_content)->Ok_0.write(other, other_content) is Ok,
        root.write(other, other_content)->Ok_0.write(one, one_content) is Ok,
        root.write(one, one_content)->Ok_0.write(other, other_content) == root.write(
            other,
            other_content,
        )->Ok_0.write(one, one_content),
        root.write(one, one_content)->Ok_0.write(other, other_content)->Ok_0.read(one) == Ok::<
            Seq<u8>,
            Failure,
        >(one_content),
        root.write(one, one_content)->Ok_0.write(other, other_content)->Ok_0.read(other) == Ok::<
            Seq<u8>,
            Failure,
        >(other_content),
{
    let parent = segments_of(one).drop_last();
    let a = segments_of(one).last();
    let b = segments_of(other).last();
    let entries = root.resolve(parent)->0->Branch_0;
    let with_a = entries.insert(a, Node::Leaf(one_content));
    let with_b = entries.insert(b, Node::Leaf(other_content));
    let first = root.write(one, one_content)->Ok_0;
    let second = root.write(other, other_content)->Ok_0;
    lemma_resolve_graft(root, parent, Node::Branch(with_a));
    lemma_resolve_graft(root, parent, Node::Branch(with_b));
    lemma_graft_twice(
        root,
        parent,
        Node::Branch(with_a),
        Node::Branch(with_a.insert(b, Node::Leaf(other_content))),
    );
    lemma_graft_twice(
        root,
        parent,
        Node::Branch(with_b),
        Node::Branch(with_b.insert(a, Node::Leaf(one_content))),
    );
    assert(with_a.insert(b, Node::Leaf(other_content)) =~= with_b.insert(
        a,
        Node::Leaf(one_content),
    ));
    let both = first.write(other, other_content)->Ok_0;
    law_write_then_read(first, other, other_content);
    law_write_then_read(second, one, one_content);
}

/// A write loses nothing of a listing: the directory of the path then lists
/// the name that was written, and every line that it listed before.
pub proof fn law_write_then_list(
    root: Node,
    path: Seq<char>,
    content: Seq<u8>,
    directory: Seq<char>,
)
    requires
        root.valid(),
        root.write(path, content) is Ok,
        segments_of(directory) == segments_of(path).drop_last(),
    ensures
        root.list(directory) is Ok,
        root.write(path, content)->Ok_0.list(directory) is Ok,
        root.write(path, content)->Ok_0.list(directory)->Ok_0.contains(segments_of(path).last()),
        forall|line: Seq<char>|
            root.list(directory)->Ok_0.contains(line) ==> root.write(path, content)->Ok_0.list(
                directory,
            )->Ok_0.contains(line),
{
    let parent = segments_of(path).drop_last();
    let name = segments_of(path).last();
    let entries = root.resolve(parent)->0->Branch_0;
    let after = entries.insert(name, Node::Leaf(content));
    lemma_resolve_valid(root, parent);
    lemma_resolve_graft(root, parent, Node::Branch(after));
    lemma_listable_insert(entries, name, Node::Leaf(content));
    lemma_listing_shows(after, name);
    assert forall|line: Seq<char>| listing(entries).contains(line) implies listing(
        after,
    ).contains(line) by {
        lemma_listing_shown(entries, line);
        let before = choose|before: Seq<char>|
            entries.dom().contains(before) && line == #[trigger] shown(before, entries[before]);
        lemma_listing_shows(after, before);
    }
}

/// The name that the write at `i` of `batch` gives its file.
pub open spec fn name_at(batch: Seq<(Seq<char>, Seq<u8>)>, i: int) -> Seq<char> {
    segments_of(batch[i].0).last()
}

/// The names that the writes of `batch` give their files.
pub open spec fn names_written(batch: Seq<(Seq<char>, Seq<u8>)>) -> Set<Seq<char>> {
    Set::new(|name: Seq<char>| exists|i: int| 0 <= i < batch.len() && name_at(batch, i) == name)
}

/// What the writes of `batch`, each a path with its content, make of the tree
/// when they are carried out one after the other; the first failure, where
/// one of them fails.
pub open spec fn write_all(root: Node, batch: Seq<(Seq<char>, Seq<u8>)>) -> Result<Node, Failure>
    decreases batch.len(),
{
    if batch.len() == 0 {
        Ok(root)
    } else {
        match write_all(root, batch.drop_last()) {
            Ok(tree) => tree.write(batch.last().0, batch.last().1),
            Err(failure) => Err(failure),
        }
    }
}

/// The directory `entries` with the file of each write of `batch` in it.
pub open spec fn with_files(
    entries: Map<Seq<char>, Node>,
    batch: Seq<(Seq<char>, Seq<u8>)>,
) -> Map<Seq<char>, Node>
    decreases batch.len(),
{
    if batch.len() == 0 {
        entries
    } else {
        with_files(entries, batch.drop_last()).insert(
            name_at(batch, batch.len() - 1),
            Node::Leaf(batch.last().1),
        )
    }
}

/// The writes of `batch` all go to the directory that `parent` leads to, each
/// to a name of its own, and none to a name that is a directory there.
pub open spec fn distinct_files_in(
    root: Node,
    parent: Seq<Seq<char>>,
    batch: Seq<(Seq<char>, Seq<u8>)>,
) -> bool {
    &&& root.resolve(parent) is Some
    &&& root.resolve(parent)->0 is Branch
    &&& forall|i: int|
        0 <= i < batch.len() ==> {
            &&& segments_of(#[trigger] batch[i].0).len() > 0
            &&& segments_of(batch[i].0).drop_last() == parent
            &&& root.resolve(parent)->0.child(name_at(batch, i)) is Some ==> root.resolve(
                parent,
            )->0.child(name_at(batch, i))->0 is Leaf
        }
    &&& forall|i: int, j: int|
        0 <= i < j < batch.len() ==> #[trigger] name_at(batch, i) != #[trigger] name_at(batch, j)
}

/// What a directory holds after the files of a batch were put in it: under
/// the name of each write its content, and under every other name what was
/// there before.
pub proof fn lemma_with_files(entries: Map<Seq<char>, Node>, batch: Seq<(Seq<char>, Seq<u8>)>)
    requires
        forall|i: int, j: int|
            0 <= i < j < batch.len() ==> #[trigger] name_at(batch, i) != #[trigger] name_at(
                batch,
                j,
            ),
    ensures
        with_files(entries, batch).dom() == entries.dom().union(names_written(batch)),
        forall|i: int|
            0 <= i < batch.len() ==> with_files(entries, batch)[#[trigger] name_at(batch, i)]
                == Node::Leaf(batch[i].1),
        forall|name: Seq<char>|
            !names_written(batch).contains(name) ==> #[trigger] with_files(entries, batch)[name]
                == entries[name],
    decreases batch.len(),
{
    if batch.len() == 0 {
        assert(with_files(entries, batch).dom() =~= entries.dom().union(names_written(batch)));
    } else {
        let front = batch.drop_last();
        let last = batch.len() - 1;
        assert forall|i: int| 0 <= i < front.len() implies name_at(front, i) == name_at(
            batch,
            i,
        ) by {}
        assert forall|i: int, j: int| 0 <= i < j < front.len() implies #[trigger] name_at(front, i)
            != #[trigger] name_at(front, j) by {
            assert(name_at(batch, i) != name_at(batch, j));
        }
        lemma_with_files(entries, front);
        assert forall|name: Seq<char>| names_written(batch).contains(name) <==> (names_written(
            front,
        ).contains(name) || name == name_at(batch, last)) by {
            if names_written(batch).contains(name) {
                let i = choose|i: int| 0 <= i < batch.len() && name_at(batch, i) == name;
                if i < last {
                    assert(name_at(front, i) == name);
                }
            }
            if names_written(front).contains(name) {
                let i = choose|i: int| 0 <= i < front.len() && name_at(front, i) == name;
                assert(name_at(batch, i) == name);
            }
        }
        assert(with_files(entries, batch).dom() =~= entries.dom().union(names_written(batch)));
        assert forall|i: int| 0 <= i < batch.len() implies with_files(entries, batch)[#[trigger] name_at(
            batch,
            i,
        )] == Node::Leaf(batch[i].1) by {
            if i < last {
                assert(name_at(batch, i) != name_at(batch, last));
                assert(name_at(front, i) == name_at(batch, i));
            }
        }
    }
}

/// Any number of writes to different names of one directory, carried out one
/// after the other, all succeed; the directory then holds what it held and
/// the file of each write, and nothing else in the tree has changed.
pub proof fn law_writes_to_distinct_names_all_succeed(
    root: Node,
    parent: Seq<Seq<char>>,
    batch: Seq<(Seq<char>, Seq<u8>)>,
)
    requires
        distinct_files_in(root, parent, batch),
    ensures
        write_all(root, batch) == Ok::<Node, Failure>(
            root.graft(
                parent,
                Node::Branch(with_files(root.resolve(parent)->0->Branch_0, batch)),
            ),
        ),
    decreases batch.len(),
{
    let entries = root.resolve(parent)->0->Branch_0;
    if batch.len() == 0 {
        lemma_graft_same(root, parent);
    } else {
        let front = batch.drop_last();
        let last = batch.len() - 1;
        let name = name_at(batch, last);
        assert forall|i: int| 0 <= i < front.len() implies name_at(front, i) == name_at(
            batch,
            i,
        ) by {}
        assert(distinct_files_in(root, parent, front)) by {
            assert forall|i: int, j: int| 0 <= i < j < front.len() implies #[trigger] name_at(
                front,
                i,
            ) != #[trigger] name_at(front, j) by {
                assert(name_at(batch, i) != name_at(batch, j));
            }
            assert forall|i: int| 0 <= i < front.len() implies {
                &&& segments_of(#[trigger] front[i].0).len() > 0
                &&& segments_of(front[i].0).drop_last() == parent
                &&& root.resolve(parent)->0.child(name_at(front, i)) is Some ==> root.resolve(
                    parent,
                )->0.child(name_at(front, i))->0 is Leaf
            } by {
                assert(front[i] == batch[i]);
                assert(name_at(front, i) == name_at(batch, i));
            }
        }
        law_writes_to_distinct_names_all_succeed(root, parent, front);
        let before = with_files(entries, front);
        let tree = root.graft(parent, Node::Branch(before));
        lemma_resolve_graft(root, parent, Node::Branch(before));
        lemma_with_files(entries, front);
        assert(!names_written(front).contains(name)) by {
            if names_written(front).contains(name) {
                let i = choose|i: int| 0 <= i < front.len() && name_at(front, i) == name;
                assert(name_at(batch, i) != name_at(batch, last));
            }
        }
        assert(before.dom().contains(name) == entries.dom().contains(name));
        assert(before[name] == entries[name]);
        assert(batch[last].0 == batch.last().0);
        lemma_graft_twice(
            root,
            parent,
            Node::Branch(before),
            Node::Branch(before.insert(name, Node::Leaf(batch.last().1))),
        );
    }
}

/// The order of such writes makes no difference: two batches of the same
/// writes leave the same tree.
pub proof fn law_writes_to_distinct_names_in_any_order(
    root: Node,
    parent: Seq<Seq<char>>,
    batch: Seq<(Seq<char>, Seq<u8>)>,
    other: Seq<(Seq<char>, Seq<u8>)>,
)
    requires
        distinct_files_in(root, parent, batch),
        distinct_files_in(root, parent, other),
        forall|i: int| 0 <= i < batch.len() ==> other.contains(#[trigger] batch[i]),
        forall|i: int| 0 <= i < other.len() ==> batch.contains(#[trigger] other[i]),
    ensures
        write_all(root, batch) is Ok,
        write_all(root, batch) == write_all(root, other),
{
    let entries = root.resolve(parent)->0->Branch_0;
    law_writes_to_distinct_names_all_succeed(root, parent, batch);
    law_writes_to_distinct_names_all_succeed(root, parent, other);
    lemma_with_files(entries, batch);
    lemma_with_files(entries, other);
    let one = with_files(entries, batch);
    let two = with_files(entries, other);
    assert forall|name: Seq<char>| names_written(batch).contains(name) implies names_written(
        other,
    ).contains(name) && one[name] == two[name] by {
        let i = choose|i: int| 0 <= i < batch.len() && name_at(batch, i) == name;
        assert(other.contains(batch[i]));
        let j = choose|j: int| 0 <= j < other.len() && other[j] == batch[i];
        assert(name_at(other, j) == name);
    }
    assert forall|name: Seq<char>| names_written(other).contains(name) implies names_written(
        batch,
    ).contains(name) by {
        let j = choose|j: int| 0 <= j < other.len() && name_at(other, j) == name;
        assert(batch.contains(other[j]));
        let i = choose|i: int| 0 <= i < batch.len() && batch[i] == other[j];
        assert(name_at(batch, i) == name);
    }
    assert(names_written(batch) =~= names_written(other));
    assert(one =~= two);
}

/// A directory whose names can be put in order still is one with the files of
/// a batch in it.
pub proof fn lemma_listable_with_files(
    entries: Map<Seq<char>, Node>,
    batch: Seq<(Seq<char>, Seq<u8>)>,
)
    requires
        listable(entries),
    ensures
        listable(with_files(entries, batch)),
    decreases batch.len(),
{
    if batch.len() > 0 {
        lemma_listable_with_files(entries, batch.drop_last());
        lemma_listable_insert(
            with_files(entries, batch.drop_last()),
            name_at(batch, batch.len() - 1),
            Node::Leaf(batch.last().1),
        );
    }
}

/// After any number of writes to different names of one directory, the
/// listing of the directory has the name of each write, every line that it
/// had before, no line twice, and as many lines as there are names when those
/// written are put with those that were there: no write is lost and none
/// shows twice.
pub proof fn law_writes_then_list(
    root: Node,
    parent: Seq<Seq<char>>,
    batch: Seq<(Seq<char>, Seq<u8>)>,
    directory: Seq<char>,
)
    requires
        root.valid(),
        distinct_files_in(root, parent, batch),
        segments_of(directory) == parent,
    ensures
        root.list(directory) is Ok,
        write_all(root, batch) is Ok,
        write_all(root, batch)->Ok_0.list(directory) is Ok,
        write_all(root, batch)->Ok_0.list(directory)->Ok_0.no_duplicates(),
        root.resolve(parent)->0->Branch_0.dom().union(names_written(batch)).finite(),
        write_all(root, batch)->Ok_0.list(directory)->Ok_0.len() == root.resolve(
            parent,
        )->0->Branch_0.dom().union(names_written(batch)).len(),
        forall|i: int|
            0 <= i < batch.len() ==> write_all(root, batch)->Ok_0.list(directory)->Ok_0.contains(
                #[trigger] name_at(batch, i),
            ),
        forall|line: Seq<char>|
            root.list(directory)->Ok_0.contains(line) ==> write_all(root, batch)->Ok_0.list(
                directory,
            )->Ok_0.contains(line),
{
    let entries = root.resolve(parent)->0->Branch_0;
    let after = with_files(entries, batch);
    law_writes_to_distinct_names_all_succeed(root, parent, batch);
    lemma_resolve_graft(root, parent, Node::Branch(after));
    lemma_resolve_valid(root, parent);
    lemma_listable_with_files(entries, batch);
    lemma_with_files(entries, batch);
    assert forall|name: Seq<char>| after.dom().contains(name) implies valid_name(name) by {
        if names_written(batch).contains(name) {
            let i = choose|i: int| 0 <= i < batch.len() && name_at(batch, i) == name;
            lemma_segments_valid(batch[i].0);
        }
    }
    lemma_listing_distinct(after);
    assert forall|i: int| 0 <= i < batch.len() implies listing(after).contains(
        #[trigger] name_at(batch, i),
    ) by {
        assert(names_written(batch).contains(name_at(batch, i)));
        lemma_listing_shows(after, name_at(batch, i));
    }
    assert forall|line: Seq<char>| listing(entries).contains(line) implies listing(after).contains(
        line,
    ) by {
        lemma_listing_shown(entries, line);
        let name = choose|name: Seq<char>|
            entries.dom().contains(name) && line == #[trigger] shown(name, entries[name]);
        if names_written(batch).contains(name) {
            let i = choose|i: int| 0 <= i < batch.len() && name_at(batch, i) == name;
            assert(root.resolve(parent)->0.child(name_at(batch, i)) is Some);
        }
        lemma_listing_shows(after, name);
    }
}

} // verus!
