//! Text as sequences of characters: splitting, joining, and the few string
//! operations the rest of the crate is built from.

use vstd::prelude::*;
use vstd::string::*;

verus! {

/// The pieces of `s` between the occurrences of `sep`, in order.
///
/// Reading `s` from the left, every `sep` closes the current piece and opens a new
/// one, and every other character extends the current piece. So there is always
/// at least one piece, and a separator at either end leaves an empty piece there.
pub open spec fn split(s: Seq<char>, sep: char) -> Seq<Seq<char>>
    decreases s.len(),
{
    if s.len() == 0 {
        seq![Seq::<char>::empty()]
    } else {
        let before = split(s.drop_last(), sep);
        if s.last() == sep {
            before.push(Seq::<char>::empty())
        } else {
            before.drop_last().push(before.last().push(s.last()))
        }
    }
}

/// The pieces with a slash between neighbours.
pub open spec fn slash_joined(pieces: Seq<Seq<char>>) -> Seq<char>
    decreases pieces.len(),
{
    if pieces.len() == 0 {
        Seq::<char>::empty()
    } else if pieces.len() == 1 {
        pieces[0]
    } else {
        slash_joined(pieces.drop_last()) + seq!['/'] + pieces.last()
    }
}

/// The pieces that are not empty, each preceded by a slash, all of them
/// concatenated.
pub open spec fn slashed_nonempty(pieces: Seq<Seq<char>>) -> Seq<char>
    decreases pieces.len(),
{
    if pieces.len() == 0 {
        Seq::<char>::empty()
    } else if pieces.last().len() == 0 {
        slashed_nonempty(pieces.drop_last())
    } else {
        slashed_nonempty(pieces.drop_last()) + seq!['/'] + pieces.last()
    }
}

/// The pieces that are not empty, in their order.
pub open spec fn nonempty(pieces: Seq<Seq<char>>) -> Seq<Seq<char>>
    decreases pieces.len(),
{
    if pieces.len() == 0 {
        Seq::<Seq<char>>::empty()
    } else if pieces.last().len() == 0 {
        nonempty(pieces.drop_last())
    } else {
        nonempty(pieces.drop_last()).push(pieces.last())
    }
}

/// Whether a path inside a repository is in its resolved form: empty, or begun
/// by a slash and not ended by one.
pub open spec fn resolved_path(path: Seq<char>) -> bool {
    path.len() == 0 || (path[0] == '/' && path.last() != '/')
}

/// The contents of a sequence of strings.
pub open spec fn texts(strings: Seq<String>) -> Seq<Seq<char>> {
    strings.map_values(|s: String| s@)
}

/// The path of `name` inside the directory `dir`: `dir`, a slash unless `dir` is
/// empty or already ends in one, then `name`.
pub open spec fn child_path(dir: Seq<char>, name: Seq<char>) -> Seq<char> {
    if dir.len() == 0 || dir.last() == '/' {
        dir + name
    } else {
        dir + seq!['/'] + name
    }
}

/// A split always has a piece, and no piece holds the separator.
pub proof fn lemma_split_pieces(s: Seq<char>, sep: char)
    ensures
        split(s, sep).len() >= 1,
        forall|i: int|
            0 <= i < split(s, sep).len() ==> !(#[trigger] split(s, sep)[i]).contains(sep),
    decreases s.len(),
{
    if s.len() > 0 {
        lemma_split_pieces(s.drop_last(), sep);
        let before = split(s.drop_last(), sep);
        if s.last() == sep {
            assert(!Seq::<char>::empty().contains(sep));
        } else {
            let grown = before.last().push(s.last());
            assert forall|k: int| 0 <= k < grown.len() implies grown[k] != sep by {
                if k < before.last().len() {
                    assert(before.last().contains(grown[k]));
                }
            }
        }
    } else {
        assert(!Seq::<char>::empty().contains(sep));
    }
}

/// Pieces without a slash in them make a resolved path.
pub proof fn lemma_slashed_nonempty_resolved(pieces: Seq<Seq<char>>)
    requires
        forall|i: int| 0 <= i < pieces.len() ==> !(#[trigger] pieces[i]).contains('/'),
    ensures
        resolved_path(slashed_nonempty(pieces)),
    decreases pieces.len(),
{
    if pieces.len() > 0 {
        let front = pieces.drop_last();
        assert forall|i: int| 0 <= i < front.len() implies !(#[trigger] front[i]).contains('/') by {
            assert(front[i] == pieces[i]);
        }
        lemma_slashed_nonempty_resolved(front);
        let last = pieces.last();
        if last.len() > 0 {
            assert(last.contains(last.last()));
            let whole = slashed_nonempty(front) + seq!['/'] + last;
            assert(whole.last() == last.last());
        }
    }
}

/// Dropping the empty pieces leaves no empty piece, and brings no slash into a
/// piece.
pub proof fn lemma_nonempty_pieces(pieces: Seq<Seq<char>>)
    requires
        forall|i: int| 0 <= i < pieces.len() ==> !(#[trigger] pieces[i]).contains('/'),
    ensures
        forall|i: int|
            0 <= i < nonempty(pieces).len() ==> (#[trigger] nonempty(pieces)[i]).len() > 0
                && !nonempty(pieces)[i].contains('/'),
    decreases pieces.len(),
{
    if pieces.len() > 0 {
        let front = pieces.drop_last();
        assert forall|i: int| 0 <= i < front.len() implies !(#[trigger] front[i]).contains('/') by {
            assert(front[i] == pieces[i]);
        }
        lemma_nonempty_pieces(front);
        let kept = nonempty(pieces);
        assert forall|i: int| 0 <= i < kept.len() implies (#[trigger] kept[i]).len() > 0
            && !kept[i].contains('/') by {
            if i < nonempty(front).len() {
                assert(kept[i] == nonempty(front)[i]);
            } else {
                assert(kept[i] == pieces.last());
            }
        }
    }
}

/// A text without the separator is one piece.
pub proof fn lemma_split_plain(s: Seq<char>, sep: char)
    requires
        !s.contains(sep),
    ensures
        split(s, sep) == seq![s],
    decreases s.len(),
{
    if s.len() > 0 {
        let front = s.drop_last();
        assert forall|i: int| 0 <= i < front.len() implies front[i] != sep by {
            assert(s.contains(s[i]));
        }
        lemma_split_plain(front, sep);
        assert(s.contains(s.last()));
        assert(front.push(s.last()) == s);
        assert(seq![front].drop_last().push(s) == seq![s]);
    } else {
        assert(s == Seq::<char>::empty());
    }
}

/// The pieces of two texts with a separator between them are the pieces of the
/// one followed by the pieces of the other.
pub proof fn lemma_split_concat(a: Seq<char>, b: Seq<char>, sep: char)
    ensures
        split(a + seq![sep] + b, sep) == split(a, sep) + split(b, sep),
    decreases b.len(),
{
    let whole = a + seq![sep] + b;
    lemma_split_pieces(a, sep);
    lemma_split_pieces(b, sep);
    if b.len() == 0 {
        assert(whole.drop_last() == a);
        assert(split(b, sep) == seq![Seq::<char>::empty()]);
    } else {
        let front = b.drop_last();
        assert(whole.drop_last() == a + seq![sep] + front);
        lemma_split_concat(a, front, sep);
        lemma_split_pieces(front, sep);
        let before = split(a, sep) + split(front, sep);
        assert(before.last() == split(front, sep).last());
        assert(before.drop_last() == split(a, sep) + split(front, sep).drop_last());
    }
}

/// `String::push` of the standard library: the character is appended and nothing
/// else changes.
#[verifier::external_body]
pub(crate) fn push_char(s: &mut String, c: char)
    ensures
        final(s)@ == old(s)@.push(c),
{
    s.push(c)
}

/// `==` of the standard library on string slices: whether the two hold the same
/// characters.
#[verifier::external_body]
pub(crate) fn same_text(a: &str, b: &str) -> (same: bool)
    ensures
        same == (a@ == b@),
{
    a == b
}

/// The characters of `s`, one by one.
pub(crate) fn chars_of(s: &str) -> (chars: Vec<char>)
    ensures
        chars@ == s@,
{
    let mut chars: Vec<char> = Vec::new();
    for c in it: s.chars()
        invariant
            it.seq() == s@,
            chars@ == s@.take(it.index()),
    {
        assert(s@.take(it.index() + 1) == s@.take(it.index()).push(c));
        chars.push(c);
    }
    assert(s@.take(s@.len() as int) == s@);
    chars
}

/// Splits the characters from `from` on at every `sep`.
pub(crate) fn split_from(chars: &Vec<char>, from: usize, sep: char) -> (pieces: Vec<String>)
    requires
        from <= chars@.len(),
    ensures
        texts(pieces@) == split(chars@.skip(from as int), sep),
{
    let ghost s = chars@.skip(from as int);
    let mut pieces: Vec<String> = Vec::new();
    let mut current = String::new();
    let mut i: usize = from;
    while i < chars.len()
        invariant
            from <= i <= chars@.len(),
            s == chars@.skip(from as int),
            texts(pieces@).push(current@) == split(s.take(i - from), sep),
        decreases chars@.len() - i,
    {
        let c = chars[i];
        let ghost before = s.take(i - from);
        let ghost grown = s.take(i + 1 - from);
        assert(grown.drop_last() == before);
        assert(grown.last() == c);
        if c == sep {
            let ghost closed = pieces@;
            pieces.push(current);
            current = String::new();
            assert(texts(pieces@) == texts(closed).push(pieces@.last()@));
        } else {
            let ghost open = current@;
            push_char(&mut current, c);
            assert(texts(pieces@).push(open).drop_last() == texts(pieces@));
        }
        i = i + 1;
    }
    assert(s.take(s.len() as int) == s);
    let ghost closed = pieces@;
    pieces.push(current);
    assert(texts(pieces@) == texts(closed).push(pieces@.last()@));
    pieces
}

/// The pieces that are not empty, in their order.
pub(crate) fn keep_nonempty(pieces: Vec<String>) -> (kept: Vec<String>)
    ensures
        texts(kept@) == nonempty(texts(pieces@)),
{
    let mut kept: Vec<String> = Vec::new();
    let ghost all = texts(pieces@);
    for i in 0..pieces.len()
        invariant
            all == texts(pieces@),
            texts(kept@) == nonempty(all.take(i as int)),
    {
        assert(all.take(i + 1).drop_last() == all.take(i as int));
        assert(all.take(i + 1).last() == pieces@[i as int]@);
        if !pieces[i].as_str().is_empty() {
            let ghost before = kept@;
            kept.push(pieces[i].clone());
            assert(texts(kept@) == texts(before).push(pieces@[i as int]@));
        }
    }
    assert(all.take(pieces.len() as int) == all);
    kept
}

/// The path of `name` inside the directory `dir`.
pub fn join_child(dir: &str, name: &str) -> (path: String)
    ensures
        path@ == child_path(dir@, name@),
{
    let len = dir.unicode_len();
    let mut path = dir.to_owned();
    if len != 0 && dir.get_char(len - 1) != '/' {
        push_char(&mut path, '/');
    }
    path.append(name);
    path
}

} // verus!
