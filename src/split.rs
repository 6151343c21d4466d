use vstd::prelude::*;

verus! {

/// The pieces of `s` between occurrences of `c`, in order. There is always at
/// least one piece: the empty string splits into one empty piece.
pub open spec fn split_on(s: Seq<char>, c: char) -> Seq<Seq<char>>
    decreases s.len(),
{
    if s.len() == 0 {
        seq![Seq::<char>::empty()]
    } else {
        let prev = split_on(s.drop_last(), c);
        if s.last() == c {
            prev.push(Seq::<char>::empty())
        } else {
            prev.update(prev.len() - 1, prev.last().push(s.last()))
        }
    }
}

/// The pieces joined back together, with `c` between neighbours.
pub open spec fn join_with(parts: Seq<Seq<char>>, c: char) -> Seq<char>
    decreases parts.len(),
{
    if parts.len() <= 1 {
        if parts.len() == 0 {
            Seq::<char>::empty()
        } else {
            parts[0]
        }
    } else {
        join_with(parts.drop_last(), c).push(c) + parts.last()
    }
}

/// How many times `c` occurs in `s`.
pub open spec fn occurrences(s: Seq<char>, c: char) -> nat
    decreases s.len(),
{
    if s.len() == 0 {
        0
    } else {
        occurrences(s.drop_last(), c) + if s.last() == c {
            1nat
        } else {
            0nat
        }
    }
}

/// The views of a list of strings.
pub open spec fn views(v: Seq<String>) -> Seq<Seq<char>> {
    v.map_values(|x: String| x@)
}

/// Splitting never yields an empty list.
pub proof fn lemma_split_nonempty(s: Seq<char>, c: char)
    ensures
        split_on(s, c).len() >= 1,
    decreases s.len(),
{
    if s.len() > 0 {
        lemma_split_nonempty(s.drop_last(), c);
    }
}

/// There is one piece more than there are separators.
pub proof fn lemma_split_len(s: Seq<char>, c: char)
    ensures
        split_on(s, c).len() == occurrences(s, c) + 1,
    decreases s.len(),
{
    if s.len() > 0 {
        lemma_split_len(s.drop_last(), c);
    }
}

/// Splitting is undone by joining, and no piece holds the separator: the two
/// facts that fix what the pieces are.
pub proof fn lemma_split_join(s: Seq<char>, c: char)
    ensures
        join_with(split_on(s, c), c) == s,
        forall|i: int| 0 <= i < split_on(s, c).len() ==> !(#[trigger] split_on(s, c)[i]).contains(c),
    decreases s.len(),
{
    if s.len() > 0 {
        let t = s.drop_last();
        lemma_split_join(t, c);
        lemma_split_nonempty(t, c);
        let prev = split_on(t, c);
        let cur = split_on(s, c);
        if s.last() == c {
            assert(cur.drop_last() =~= prev);
            assert(join_with(cur, c) =~= s);
        } else {
            let n = prev.len();
            if n == 1 {
                assert(cur[0] =~= prev[0].push(s.last()));
                assert(join_with(cur, c) =~= s);
            } else {
                assert(cur.drop_last() =~= prev.drop_last());
                assert(join_with(prev, c) == join_with(prev.drop_last(), c).push(c) + prev.last());
                assert(cur.last() == prev.last().push(s.last()));
                assert(s =~= t.push(s.last()));
                assert(join_with(cur, c) == join_with(cur.drop_last(), c).push(c) + cur.last());
                assert(join_with(cur, c) =~= s);
            }
            assert forall|i: int| 0 <= i < cur.len() implies !(#[trigger] cur[i]).contains(c) by {
                if i == n - 1 {
                    assert(!prev[i].contains(c));
                    if cur[i].contains(c) {
                        let j = choose|j: int| 0 <= j < cur[i].len() && cur[i][j] == c;
                        assert(j < prev[i].len());
                        assert(prev[i][j] == c);
                    }
                } else {
                    assert(cur[i] == prev[i]);
                }
            }
        }
    }
}

/// Splits `s` at every `c`; the empty string gives one empty piece.
pub fn split_at_char(s: &str, c: char) -> (r: Vec<String>)
    ensures
        views(r@) == split_on(s@, c),
{
    let n = s.unicode_len();
    let mut parts: Vec<String> = Vec::new();
    let mut start: usize = 0;
    let mut i: usize = 0;
    proof {
        assert(s@.take(0) =~= Seq::<char>::empty());
        assert(views(parts@).push(s@.subrange(0, 0)) =~= split_on(s@.take(0), c));
    }
    while i < n
        invariant
            n == s@.len(),
            start <= i <= n,
            views(parts@).push(s@.subrange(start as int, i as int)) == split_on(s@.take(i as int), c),
        decreases n - i,
    {
        let ch = s.get_char(i);
        let ghost pre = s@.take(i as int);
        proof {
            assert(s@.take(i + 1).drop_last() =~= pre);
            lemma_split_nonempty(pre, c);
        }
        if ch == c {
            let piece = s.substring_char(start, i).to_owned();
            let ghost before = parts@;
            parts.push(piece);
            proof {
                assert(views(parts@) =~= views(before).push(piece@));
            }
            start = i + 1;
            i = i + 1;
            proof {
                assert(s@.subrange(start as int, i as int) =~= Seq::<char>::empty());
            }
        } else {
            proof {
                let prev = split_on(pre, c);
                assert(s@.subrange(start as int, i + 1) =~= s@.subrange(start as int, i as int).push(ch));
                assert(views(parts@).push(s@.subrange(start as int, i + 1)) =~= prev.update(
                    prev.len() - 1,
                    prev.last().push(ch),
                ));
            }
            i = i + 1;
        }
    }
    let last = s.substring_char(start, n).to_owned();
    let ghost before = parts@;
    parts.push(last);
    proof {
        assert(s@.take(n as int) =~= s@);
    }
    assert(views(parts@) =~= views(before).push(last@));
    parts
}

} // verus!
