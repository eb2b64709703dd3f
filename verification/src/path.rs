use vstd::prelude::*;

verus! {

/// The character that separates the segments of a path.
pub open spec fn separator() -> char {
    '/'
}

/// A name that a directory can hold: not empty, and free of the separator.
pub open spec fn valid_name(name: Seq<char>) -> bool {
    name.len() > 0 && !name.contains(separator())
}

/// How many characters stand before the first separator of `s`.
pub open spec fn head_len(s: Seq<char>) -> nat
    decreases s.len(),
{
    if s.len() == 0 || s[0] == separator() {
        0
    } else {
        1 + head_len(s.drop_first())
    }
}

/// The segments of a path: the non-empty pieces between its separators, in
/// order.
pub open spec fn segments_of(path: Seq<char>) -> Seq<Seq<char>>
    decreases path.len(),
{
    if path.len() == 0 {
        Seq::empty()
    } else if path[0] == separator() {
        segments_of(path.drop_first())
    } else {
        let n = head_len(path) as int;
        if 0 < n <= path.len() {
            seq![path.subrange(0, n)] + segments_of(path.subrange(n, path.len() as int))
        } else {
            Seq::empty()
        }
    }
}

/// `head_len` never counts beyond the end, and stops at a separator or at the end.
pub proof fn lemma_head_len(s: Seq<char>)
    ensures
        head_len(s) <= s.len(),
        head_len(s) < s.len() ==> s[head_len(s) as int] == separator(),
        forall|i: int| 0 <= i < head_len(s) ==> s[i] != separator(),
        s.len() > 0 && s[0] != separator() ==> head_len(s) > 0,
    decreases s.len(),
{
    if s.len() == 0 || s[0] == separator() {
    } else {
        lemma_head_len(s.drop_first());
        assert forall|i: int| 0 <= i < head_len(s) implies s[i] != separator() by {
            if i > 0 {
                assert(s[i] == s.drop_first()[i - 1]);
            }
        }
    }
}

/// A stretch without a separator that ends at a separator, or at the end, is the head.
pub proof fn lemma_head_len_is(s: Seq<char>, n: int)
    requires
        0 <= n <= s.len(),
        forall|i: int| 0 <= i < n ==> s[i] != separator(),
        n < s.len() ==> s[n] == separator(),
    ensures
        head_len(s) == n,
    decreases s.len(),
{
    if n > 0 {
        let t = s.drop_first();
        assert forall|i: int| 0 <= i < n - 1 implies t[i] != separator() by {
            assert(t[i] == s[i + 1]);
        }
        lemma_head_len_is(t, n - 1);
    }
}

/// A path that starts with a separator has the segments of what follows it.
pub proof fn lemma_segments_skip_separator(path: Seq<char>, at: int)
    requires
        0 <= at < path.len(),
        path[at] == separator(),
    ensures
        segments_of(path.subrange(at, path.len() as int)) == segments_of(
            path.subrange(at + 1, path.len() as int),
        ),
{
    let rest = path.subrange(at, path.len() as int);
    assert(rest.drop_first() =~= path.subrange(at + 1, path.len() as int));
}

/// A stretch without a separator, from `from` up to a separator or the end at
/// `to`, is the first segment of what starts at `from`.
pub proof fn lemma_segments_take_piece(path: Seq<char>, from: int, to: int)
    requires
        0 <= from < to <= path.len(),
        forall|i: int| from <= i < to ==> path[i] != separator(),
        to < path.len() ==> path[to] == separator(),
    ensures
        segments_of(path.subrange(from, path.len() as int)) == seq![path.subrange(from, to)]
            + segments_of(path.subrange(to, path.len() as int)),
{
    let rest = path.subrange(from, path.len() as int);
    lemma_head_len_is(rest, to - from);
    assert(rest.subrange(0, to - from) =~= path.subrange(from, to));
    assert(rest.subrange(to - from, rest.len() as int) =~= path.subrange(to, path.len() as int));
}

/// Every segment of a path is a valid name.
pub proof fn lemma_segments_valid(path: Seq<char>)
    ensures
        forall|i: int|
            0 <= i < segments_of(path).len() ==> valid_name(#[trigger] segments_of(path)[i]),
    decreases path.len(),
{
    if path.len() == 0 {
    } else if path[0] == separator() {
        lemma_segments_valid(path.drop_first());
        assert(segments_of(path) == segments_of(path.drop_first()));
    } else {
        let n = head_len(path) as int;
        lemma_head_len(path);
        let head = path.subrange(0, n);
        let tail = path.subrange(n, path.len() as int);
        lemma_segments_valid(tail);
        assert(valid_name(head)) by {
            if head.contains(separator()) {
                let k = choose|k: int| 0 <= k < head.len() && head[k] == separator();
                assert(path[k] == separator());
            }
        }
        assert(segments_of(path) == seq![head] + segments_of(tail));
        assert forall|i: int| 0 <= i < segments_of(path).len() implies valid_name(
            #[trigger] segments_of(path)[i],
        ) by {
            if i > 0 {
                assert(segments_of(path)[i] == segments_of(tail)[i - 1]);
            }
        }
    }
}

/// Two paths joined by a separator have the segments of the first, then those
/// of the second. So a separator more at the start, at the end or beside
/// another one changes nothing, as an empty path has no segments.
pub proof fn law_segments_of_joined_paths(front: Seq<char>, back: Seq<char>)
    ensures
        segments_of(front + seq![separator()] + back) == segments_of(front) + segments_of(back),
    decreases front.len(),
{
    let joined = front + seq![separator()] + back;
    if front.len() == 0 {
        assert(joined.drop_first() =~= back);
        assert(segments_of(front) + segments_of(back) =~= segments_of(back));
    } else if front[0] == separator() {
        assert(joined.drop_first() =~= front.drop_first() + seq![separator()] + back);
        law_segments_of_joined_paths(front.drop_first(), back);
    } else {
        let n = head_len(front) as int;
        lemma_head_len(front);
        assert forall|i: int| 0 <= i < n implies joined[i] != separator() by {
            assert(joined[i] == front[i]);
        }
        assert(joined[n] == separator()) by {
            if n < front.len() {
                assert(joined[n] == front[n]);
            }
        }
        lemma_head_len_is(joined, n);
        let rest = front.subrange(n, front.len() as int);
        assert(joined.subrange(0, n) =~= front.subrange(0, n));
        assert(joined.subrange(n, joined.len() as int) =~= rest + seq![separator()] + back);
        law_segments_of_joined_paths(rest, back);
        assert(seq![front.subrange(0, n)] + (segments_of(rest) + segments_of(back)) =~= (
        seq![front.subrange(0, n)] + segments_of(rest)) + segments_of(back));
    }
}

/// What is left of the path from `at` on has the segments of the whole path
/// but for those in `done`.
pub open spec fn scanned(path: Seq<char>, done: Seq<Seq<char>>, at: int) -> bool {
    0 <= at <= path.len() && segments_of(path) == done + segments_of(
        path.subrange(at, path.len() as int),
    )
}

/// Splits a path at its separators and drops the empty pieces, so that
/// separators at either end, or several in a row, make no difference.
pub fn segments(path: &str) -> (r: Vec<String>)
    ensures
        r.deep_view() == segments_of(path@),
{
    let n = path.unicode_len();
    let mut out: Vec<String> = Vec::new();
    let mut start: usize = 0;
    let mut pos: usize = 0;
    proof {
        assert(path@.subrange(0, path@.len() as int) =~= path@);
        assert(out.deep_view() =~= Seq::<Seq<char>>::empty());
    }
    for c in it: path.chars()
        invariant
            n == path@.len(),
            it.seq() == path@,
            pos == it.index(),
            start <= pos <= n,
            scanned(path@, out.deep_view(), start as int),
            forall|i: int| start <= i < pos ==> path@[i] != separator(),
    {
        assert(c == path@[pos as int]);
        if c == '/' {
            if start < pos {
                let piece = path.substring_char(start, pos).to_owned();
                let ghost before = out.deep_view();
                out.push(piece);
                proof {
                    let tail = segments_of(path@.subrange(pos as int, n as int));
                    lemma_segments_take_piece(path@, start as int, pos as int);
                    assert(out.deep_view() =~= before.push(piece@));
                    assert(before + (seq![piece@] + tail) =~= before.push(piece@) + tail);
                }
            }
            proof {
                lemma_segments_skip_separator(path@, pos as int);
            }
            start = pos + 1;
        }
        pos += 1;
    }
    proof {
        assert(path@.subrange(n as int, n as int) =~= Seq::<char>::empty());
    }
    if start < pos {
        let piece = path.substring_char(start, pos).to_owned();
        let ghost before = out.deep_view();
        out.push(piece);
        proof {
            lemma_segments_take_piece(path@, start as int, pos as int);
            assert(out.deep_view() =~= before.push(piece@));
            assert(before + (seq![piece@] + Seq::<Seq<char>>::empty()) =~= before.push(piece@));
        }
    }
    out
}

} // verus!
