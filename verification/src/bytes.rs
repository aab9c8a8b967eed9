//! Byte-sequence operations: prefixes, windows, and splitting on a separator.

use vstd::prelude::*;

verus! {

/// Whether `window` occurs in `s` at position `at`.
pub open spec fn is_window(s: Seq<u8>, at: int, window: Seq<u8>) -> bool {
    0 <= at <= s.len() - window.len() && s.subrange(at, at + window.len()) == window
}

/// Whether `window` occurs in `s` as a run of adjacent bytes.
pub open spec fn has_window(s: Seq<u8>, window: Seq<u8>) -> bool {
    exists|i: int| is_window(s, i, window)
}

/// The pieces of `s` between the separators, `n + 1` of them for `n` separators.
pub open spec fn pieces(s: Seq<u8>, sep: u8) -> Seq<Seq<u8>>
    decreases s.len(),
{
    if s.len() == 0 {
        seq![Seq::<u8>::empty()]
    } else {
        let before = pieces(s.drop_last(), sep);
        if s.last() == sep {
            before.push(Seq::empty())
        } else {
            before.drop_last().push(before.last().push(s.last()))
        }
    }
}

/// Whether the bytes of `s` from `from` up to `to` stand between separators or the ends of `s`.
pub open spec fn is_between(s: Seq<u8>, sep: u8, from: int, to: int) -> bool {
    &&& 0 <= from <= to <= s.len()
    &&& from == 0 || s[from - 1] == sep
    &&& to == s.len() || s[to] == sep
    &&& forall|i: int| from <= i < to ==> s[i] != sep
}

proof fn lemma_pieces_nonempty(s: Seq<u8>, sep: u8)
    ensures
        pieces(s, sep).len() >= 1,
    decreases s.len(),
{
    if s.len() > 0 {
        lemma_pieces_nonempty(s.drop_last(), sep);
    }
}

/// Every piece stands between separators or ends; the last ends where `s` does.
pub proof fn lemma_piece_place(s: Seq<u8>, sep: u8, k: int) -> (at: (int, int))
    requires
        0 <= k < pieces(s, sep).len(),
    ensures
        is_between(s, sep, at.0, at.1),
        pieces(s, sep)[k] == s.subrange(at.0, at.1),
        k == pieces(s, sep).len() - 1 <==> at.1 == s.len(),
    decreases s.len(),
{
    if s.len() == 0 {
        assert(s.subrange(0, 0) =~= Seq::empty());
        (0, 0)
    } else {
        let init = s.drop_last();
        let front = pieces(init, sep);
        lemma_pieces_nonempty(init, sep);
        if s.last() == sep {
            if k == front.len() {
                let end = s.len() as int;
                assert(s.subrange(end, end) =~= Seq::empty());
                (end, end)
            } else {
                let at = lemma_piece_place(init, sep, k);
                assert forall|i: int| at.0 <= i < at.1 implies s[i] != sep by {
                    assert(init[i] == s[i]);
                }
                assert(s.subrange(at.0, at.1) =~= init.subrange(at.0, at.1));
                at
            }
        } else {
            let at = lemma_piece_place(init, sep, k);
            assert forall|i: int| at.0 <= i < at.1 implies s[i] != sep by {
                assert(init[i] == s[i]);
            }
            if k == front.len() - 1 {
                assert(s.subrange(at.0, at.1 + 1) =~= init.subrange(at.0, at.1).push(s.last()));
                (at.0, at.1 + 1)
            } else {
                assert(s.subrange(at.0, at.1) =~= init.subrange(at.0, at.1));
                at
            }
        }
    }
}

/// What stands between separators or ends is a piece.
pub proof fn lemma_piece_at(s: Seq<u8>, sep: u8, from: int, to: int) -> (k: int)
    requires
        is_between(s, sep, from, to),
    ensures
        0 <= k < pieces(s, sep).len(),
        pieces(s, sep)[k] == s.subrange(from, to),
        k == pieces(s, sep).len() - 1 <==> to == s.len(),
    decreases s.len(),
{
    if s.len() == 0 {
        assert(s.subrange(0, 0) =~= Seq::empty());
        0
    } else {
        let init = s.drop_last();
        let front = pieces(init, sep);
        lemma_pieces_nonempty(init, sep);
        if s.last() == sep {
            if from == s.len() {
                assert(s.subrange(from, to) =~= Seq::empty());
                front.len() as int
            } else {
                let k = lemma_piece_at(init, sep, from, to);
                assert(s.subrange(from, to) =~= init.subrange(from, to));
                k
            }
        } else if to == s.len() {
            let k = lemma_piece_at(init, sep, from, to - 1);
            assert(s.subrange(from, to) =~= init.subrange(from, to - 1).push(s.last()));
            k
        } else {
            let k = lemma_piece_at(init, sep, from, to);
            assert(s.subrange(from, to) =~= init.subrange(from, to));
            k
        }
    }
}

/// The given runs in order, with `sep` between neighbours.
pub open spec fn joined(runs: Seq<Seq<u8>>, sep: u8) -> Seq<u8>
    decreases runs.len(),
{
    if runs.len() == 0 {
        Seq::empty()
    } else if runs.len() == 1 {
        runs[0]
    } else {
        joined(runs.drop_last(), sep).push(sep) + runs.last()
    }
}

/// The pieces of two runs with a separator between them are those of both.
pub proof fn lemma_pieces_of_two(a: Seq<u8>, sep: u8, b: Seq<u8>)
    ensures
        pieces(a.push(sep) + b, sep) == pieces(a, sep) + pieces(b, sep),
    decreases b.len(),
{
    let s = a.push(sep) + b;
    if b.len() == 0 {
        assert(s =~= a.push(sep));
        assert(s.drop_last() =~= a);
        assert(pieces(s, sep) =~= pieces(a, sep) + pieces(b, sep));
    } else {
        lemma_pieces_of_two(a, sep, b.drop_last());
        assert(s.drop_last() =~= a.push(sep) + b.drop_last());
        lemma_pieces_nonempty(b.drop_last(), sep);
        let (x, y) = (pieces(a, sep), pieces(b.drop_last(), sep));
        assert((x + y).drop_last() =~= x + y.drop_last());
        assert((x + y).last() == y.last());
        assert(pieces(s, sep) =~= x + pieces(b, sep));
    }
}

/// Pieces joined again are what was cut.
pub proof fn lemma_joined_pieces(s: Seq<u8>, sep: u8)
    ensures
        joined(pieces(s, sep), sep) == s,
    decreases s.len(),
{
    let all = pieces(s, sep);
    if s.len() == 0 {
        assert(joined(all, sep) =~= s);
    } else {
        let front = pieces(s.drop_last(), sep);
        lemma_pieces_nonempty(s.drop_last(), sep);
        lemma_joined_pieces(s.drop_last(), sep);
        if s.last() == sep {
            assert(all.drop_last() =~= front);
            assert(joined(all, sep) =~= s.drop_last().push(sep));
        } else if front.len() == 1 {
            assert(joined(all, sep) =~= s);
        } else {
            assert(all.drop_last() =~= front.drop_last());
            assert(joined(all, sep) =~= joined(front, sep).push(s.last()));
        }
        assert(s.drop_last().push(s.last()) =~= s);
    }
}

/// The contents of each byte vector.
pub open spec fn views(runs: Seq<Vec<u8>>) -> Seq<Seq<u8>> {
    runs.map_values(|v: Vec<u8>| v@)
}

/// Each run stands for its bytes, in order.
pub proof fn law_views(runs: Seq<Vec<u8>>, i: int)
    requires
        0 <= i < runs.len(),
    ensures
        views(runs).len() == runs.len(),
        views(runs)[i] == runs[i]@,
{
}

/// A window occurs exactly where the bytes are the window with something, or nothing, before and
/// behind it.
pub proof fn law_windows(s: Seq<u8>, window: Seq<u8>)
    ensures
        has_window(s, window) <==> exists|a: Seq<u8>, b: Seq<u8>| s == #[trigger] (a + window + b),
{
    if has_window(s, window) {
        let at = choose|at: int| is_window(s, at, window);
        let (a, b) = (s.take(at), s.skip(at + window.len()));
        assert(s =~= a + window + b);
    }
    if exists|a: Seq<u8>, b: Seq<u8>| s == #[trigger] (a + window + b) {
        let (a, b): (Seq<u8>, Seq<u8>) = choose|a: Seq<u8>, b: Seq<u8>|
            s == #[trigger] (a + window + b);
        assert(s.subrange(a.len() as int, a.len() as int + window.len()) =~= window);
        assert(is_window(s, a.len() as int, window));
    }
}

/// Bytes without the separator are one piece; the pieces of two runs with a separator between
/// them are those of both; and what is split can be joined again.
pub proof fn law_pieces(a: Seq<u8>, sep: u8, b: Seq<u8>)
    ensures
        !a.contains(sep) ==> pieces(a, sep) == seq![a],
        pieces(a.push(sep) + b, sep) == pieces(a, sep) + pieces(b, sep),
        joined(pieces(a, sep), sep) == a,
{
    lemma_pieces_of_two(a, sep, b);
    lemma_joined_pieces(a, sep);
    if !a.contains(sep) {
        lemma_one_piece(a, sep);
    }
}

proof fn lemma_one_piece(s: Seq<u8>, sep: u8)
    requires
        !s.contains(sep),
    ensures
        pieces(s, sep) == seq![s],
    decreases s.len(),
{
    if s.len() > 0 {
        let init = s.drop_last();
        assert(s.contains(s.last()));
        assert forall|i: int| 0 <= i < init.len() implies init[i] != sep by {
            assert(s.contains(s[i]));
        }
        lemma_one_piece(init, sep);
        assert(init.push(s.last()) =~= s);
        assert(pieces(s, sep) =~= seq![s]);
    } else {
        assert(s =~= Seq::empty());
    }
}

/// Appends the bytes of a slice.
pub fn append_bytes(out: &mut Vec<u8>, more: &[u8])
    ensures
        final(out)@ == old(out)@ + more@,
{
    out.extend_from_slice(more);
    assert(out@ == old(out)@ + more@);
}

/// The bytes `s[from..to]` as a vector.
pub fn copy_range(s: &[u8], from: usize, to: usize) -> (r: Vec<u8>)
    requires
        from <= to <= s@.len(),
    ensures
        r@ == s@.subrange(from as int, to as int),
{
    let mut r: Vec<u8> = Vec::new();
    append_range(&mut r, s, from, to);
    assert(r@ == s@.subrange(from as int, to as int));
    r
}

/// Appends the bytes `s[from..to]`.
pub fn append_range(out: &mut Vec<u8>, s: &[u8], from: usize, to: usize)
    requires
        from <= to <= s@.len(),
    ensures
        final(out)@ == old(out)@ + s@.subrange(from as int, to as int),
{
    let mut i: usize = from;
    while i < to
        invariant
            from <= i <= to <= s@.len(),
            out@ == old(out)@ + s@.subrange(from as int, i as int),
        decreases to - i,
    {
        out.push(s[i]);
        i += 1;
        assert(out@ == old(out)@ + s@.subrange(from as int, i as int));
    }
}

/// Whether two byte slices hold the same bytes.
pub fn same_bytes(a: &[u8], b: &[u8]) -> (r: bool)
    ensures
        r == (a@ == b@),
{
    if a.len() != b.len() {
        return false;
    }
    assert(a@.subrange(0, b@.len() as int) =~= a@);
    has_prefix(a, b)
}

/// Whether `s` begins with `prefix`.
pub fn has_prefix(s: &[u8], prefix: &[u8]) -> (r: bool)
    ensures
        r == prefix@.is_prefix_of(s@),
{
    if prefix.len() > s.len() {
        return false;
    }
    window_at(s, 0, prefix)
}

/// Whether `window` occurs in `s` at position `at`.
pub fn window_at(s: &[u8], at: usize, window: &[u8]) -> (r: bool)
    requires
        at + window@.len() <= s@.len(),
    ensures
        r == is_window(s@, at as int, window@),
{
    let n = s.len();
    let mut i: usize = 0;
    while i < window.len()
        invariant
            n == s@.len(),
            i <= window@.len(),
            at + window@.len() <= s@.len(),
            forall|k: int| 0 <= k < i ==> s@[at + k] == window@[k],
        decreases window@.len() - i,
    {
        if s[at + i] != window[i] {
            assert(s@.subrange(at as int, at + window@.len())[i as int] == s@[at + i]);
            return false;
        }
        i += 1;
    }
    assert(s@.subrange(at as int, at + window@.len()) =~= window@);
    true
}

/// Whether `window` occurs anywhere in `s`.
pub fn contains_window(s: &[u8], window: &[u8]) -> (r: bool)
    ensures
        r == has_window(s@, window@),
{
    if window.len() > s.len() {
        return false;
    }
    let last = s.len() - window.len();
    let mut i: usize = 0;
    loop
        invariant
            last + window@.len() == s@.len(),
            i <= last,
            forall|k: int| k < i ==> !is_window(s@, k, window@),
        decreases last - i,
    {
        if window_at(s, i, window) {
            return true;
        }
        if i == last {
            return false;
        }
        i += 1;
    }
}

/// Whether `byte` occurs in `s`.
pub fn contains_byte(s: &[u8], byte: u8) -> (r: bool)
    ensures
        r == s@.contains(byte),
{
    let mut i: usize = 0;
    while i < s.len()
        invariant
            i <= s@.len(),
            forall|k: int| 0 <= k < i ==> s@[k] != byte,
        decreases s@.len() - i,
    {
        if s[i] == byte {
            return true;
        }
        i += 1;
    }
    false
}

/// Splits `s` on `sep`.
pub fn split_on(s: &[u8], sep: u8) -> (r: Vec<Vec<u8>>)
    ensures
        views(r@) == pieces(s@, sep),
{
    let mut done: Vec<Vec<u8>> = Vec::new();
    let mut current: Vec<u8> = Vec::new();
    let mut i: usize = 0;
    assert(s@.take(0) == Seq::<u8>::empty());
    assert(views(done@).push(current@) =~= pieces(s@.take(0), sep));
    while i < s.len()
        invariant
            i <= s@.len(),
            views(done@).push(current@) == pieces(s@.take(i as int), sep),
        decreases s@.len() - i,
    {
        let ghost before = views(done@).push(current@);
        assert(s@.take(i + 1).drop_last() == s@.take(i as int));
        if s[i] == sep {
            done.push(current);
            current = Vec::new();
            assert(views(done@) =~= before);
        } else {
            current.push(s[i]);
            assert(before.drop_last() =~= views(done@));
        }
        i += 1;
    }
    assert(s@.take(s@.len() as int) == s@);
    let ghost all = views(done@).push(current@);
    done.push(current);
    assert(views(done@) =~= all);
    done
}

} // verus!
