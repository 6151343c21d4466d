use vstd::prelude::*;

use crate::entry::{WordEntry, WordEntryView};
use crate::loader::entry_views;
use crate::split::views;

verus! {

/// Strict lexicographic order on character sequences, by code point; this
/// is the order of `str`'s `Ord`.
pub open spec fn lex_lt(a: Seq<char>, b: Seq<char>) -> bool
    decreases a.len(),
{
    if a.len() == 0 {
        b.len() > 0
    } else if b.len() == 0 {
        false
    } else if (a[0] as int) < (b[0] as int) {
        true
    } else if a[0] == b[0] {
        lex_lt(a.drop_first(), b.drop_first())
    } else {
        false
    }
}

/// Every element is strictly below every later one: ascending, no repeats.
pub open spec fn strictly_sorted(v: Seq<Seq<char>>) -> bool {
    forall|i: int, j: int| 0 <= i < j < v.len() ==> lex_lt(#[trigger] v[i], #[trigger] v[j])
}

/// `p` is a phone of some syllable of some entry of `es`.
pub open spec fn phone_used(es: Seq<WordEntryView>, p: Seq<char>) -> bool {
    exists|i: int, j: int|
        0 <= i < es.len() && 0 <= j < es[i].syllables.len() && (
        #[trigger] es[i].syllables[j]).contains(p)
}

/// The order is transitive.
pub proof fn lemma_lex_transitive(a: Seq<char>, b: Seq<char>, c: Seq<char>)
    requires
        lex_lt(a, b),
        lex_lt(b, c),
    ensures
        lex_lt(a, c),
    decreases a.len(),
{
    if a.len() > 0 && b.len() > 0 && c.len() > 0 && a[0] == b[0] && b[0] == c[0] {
        lemma_lex_transitive(a.drop_first(), b.drop_first(), c.drop_first());
    }
}

/// Any two different sequences are ordered one way or the other.
pub proof fn lemma_lex_total(a: Seq<char>, b: Seq<char>)
    requires
        a != b,
    ensures
        lex_lt(a, b) || lex_lt(b, a),
    decreases a.len(),
{
    if a.len() > 0 && b.len() > 0 {
        if a[0] == b[0] {
            if a.drop_first() == b.drop_first() {
                assert(a =~= seq![a[0]] + a.drop_first());
                assert(b =~= seq![b[0]] + b.drop_first());
            }
            lemma_lex_total(a.drop_first(), b.drop_first());
        } else {
            assert((a[0] as int) != (b[0] as int));
        }
    } else if a.len() == 0 && b.len() == 0 {
        assert(a =~= b);
    }
}

/// Whether `a` comes strictly before `b` in lexicographic order.
pub fn str_lt(a: &str, b: &str) -> (r: bool)
    ensures
        r == lex_lt(a@, b@),
{
    let na = a.unicode_len();
    let nb = b.unicode_len();
    let mut i: usize = 0;
    assert(a@.skip(0) =~= a@ && b@.skip(0) =~= b@);
    while i < na && i < nb
        invariant
            na == a@.len(),
            nb == b@.len(),
            i <= na,
            i <= nb,
            lex_lt(a@, b@) == lex_lt(a@.skip(i as int), b@.skip(i as int)),
        decreases na - i,
    {
        let ca = a.get_char(i);
        let cb = b.get_char(i);
        if (ca as u32) < (cb as u32) {
            return true;
        }
        if ca != cb {
            return false;
        }
        assert(a@.skip(i as int).drop_first() =~= a@.skip(i + 1));
        assert(b@.skip(i as int).drop_first() =~= b@.skip(i + 1));
        i = i + 1;
    }
    i == na && i < nb
}

/// Adds `x` to an ascending list of distinct strings, where it is missing.
pub fn insert_sorted(v: &mut Vec<String>, x: &str)
    requires
        strictly_sorted(views(old(v)@)),
    ensures
        strictly_sorted(views(final(v)@)),
        forall|p: Seq<char>| #[trigger]
            views(final(v)@).contains(p) <==> (views(old(v)@).contains(p) || p == x@),
{
    let ghost w = views(v@);
    let mut i: usize = 0;
    while i < v.len() && str_lt(v[i].as_str(), x)
        invariant
            i <= v@.len(),
            w == views(v@),
            strictly_sorted(w),
            forall|k: int| 0 <= k < i ==> lex_lt(#[trigger] w[k], x@),
        decreases v@.len() - i,
    {
        assert(w[i as int] == v@[i as int]@);
        i = i + 1;
    }
    if i < v.len() {
        assert(w[i as int] == v@[i as int]@);
        let xs = x.to_owned();
        if v[i] == xs {
            assert(w.contains(x@));
            return;
        }
        proof {
            lemma_lex_total(w[i as int], x@);
        }
    }
    v.insert(i, x.to_owned());
    proof {
        let nw = views(v@);
        assert(nw =~= w.insert(i as int, x@));
        assert forall|a: int, b: int| 0 <= a < b < nw.len() implies lex_lt(
            #[trigger] nw[a],
            #[trigger] nw[b],
        ) by {
            if b == i {
                assert(nw[a] == w[a]);
            } else if a == i {
                assert(nw[b] == w[b - 1]);
                if b - 1 > i {
                    lemma_lex_transitive(x@, w[i as int], w[b - 1]);
                }
            } else if a < i {
                if b > i {
                    assert(nw[b] == w[b - 1]);
                }
            } else {
                assert(nw[a] == w[a - 1] && nw[b] == w[b - 1]);
            }
        }
        assert forall|p: Seq<char>| #[trigger] nw.contains(p) <==> (w.contains(p) || p == x@) by {
            if nw.contains(p) {
                let k = choose|k: int| 0 <= k < nw.len() && nw[k] == p;
                if k < i {
                    assert(w[k] == p);
                } else if k > i {
                    assert(w[k - 1] == p);
                }
            }
            if w.contains(p) {
                let k = choose|k: int| 0 <= k < w.len() && w[k] == p;
                if k < i {
                    assert(nw[k] == p);
                } else {
                    assert(nw[k + 1] == p);
                }
            }
            if p == x@ {
                assert(nw[i as int] == p);
            }
        }
    }
}

/// The distinct phones used across all syllables of all entries, in
/// ascending lexicographic order.
pub fn phone_set(entries: &Vec<WordEntry>) -> (r: Vec<String>)
    ensures
        strictly_sorted(views(r@)),
        forall|p: Seq<char>| #[trigger]
            views(r@).contains(p) <==> phone_used(entry_views(entries@), p),
{
    let ghost es = entry_views(entries@);
    let mut out: Vec<String> = Vec::new();
    let mut i: usize = 0;
    while i < entries.len()
        invariant
            i <= entries@.len(),
            es == entry_views(entries@),
            strictly_sorted(views(out@)),
            forall|p: Seq<char>| #[trigger]
                views(out@).contains(p) <==> phone_used(es.take(i as int), p),
        decreases entries@.len() - i,
    {
        let syllables = &entries[i].syllables;
        let ghost before = views(out@);
        let mut j: usize = 0;
        while j < syllables.len()
            invariant
                i < entries@.len(),
                j <= syllables@.len(),
                syllables == entries@[i as int].syllables,
                strictly_sorted(views(out@)),
                forall|p: Seq<char>| #[trigger]
                    views(out@).contains(p) <==> (before.contains(p) || exists|t: int|
                        0 <= t < j && (#[trigger] views(syllables@[t]@)).contains(p)),
            decreases syllables@.len() - j,
        {
            let phones = &syllables[j];
            let ghost mid = views(out@);
            let mut k: usize = 0;
            while k < phones.len()
                invariant
                    j < syllables@.len(),
                    k <= phones@.len(),
                    phones == syllables@[j as int],
                    strictly_sorted(views(out@)),
                    forall|p: Seq<char>| #[trigger]
                        views(out@).contains(p) <==> (mid.contains(p) || views(phones@).take(
                            k as int,
                        ).contains(p)),
                decreases phones@.len() - k,
            {
                let ghost pre = views(out@);
                insert_sorted(&mut out, phones[k].as_str());
                proof {
                    let ph = views(phones@);
                    assert(ph.take(k + 1) =~= ph.take(k as int).push(ph[k as int]));
                    assert forall|p: Seq<char>| #[trigger]
                        views(out@).contains(p) <==> (mid.contains(p) || ph.take(k + 1).contains(
                            p,
                        )) by {
                        if p == ph[k as int] {
                            assert(ph.take(k + 1)[k as int] == p);
                        }
                        if ph.take(k + 1).contains(p) && p != ph[k as int] {
                            let q = choose|q: int| 0 <= q < k + 1 && #[trigger] ph.take(k + 1)[q] == p;
                            assert(ph.take(k as int)[q] == p);
                        }
                    }
                }
                k = k + 1;
            }
            proof {
                let ph = views(phones@);
                assert(ph.take(k as int) =~= ph);
                assert forall|p: Seq<char>| #[trigger]
                    views(out@).contains(p) <==> (before.contains(p) || exists|t: int|
                        0 <= t < j + 1 && (#[trigger] views(syllables@[t]@)).contains(p)) by {
                    if ph.contains(p) {
                        assert(0 <= j < j + 1 && views(syllables@[j as int]@).contains(p));
                    }
                    if exists|t: int| 0 <= t < j + 1 && (#[trigger] views(syllables@[t]@)).contains(p) {
                        let t = choose|t: int| 0 <= t < j + 1 && (#[trigger] views(syllables@[t]@)).contains(p);
                        if t < j {
                            assert(0 <= t < j && views(syllables@[t]@).contains(p));
                        }
                    }
                }
            }
            j = j + 1;
        }
        proof {
            let ei = es[i as int];
            assert(ei == entries@[i as int]@);
            assert forall|p: Seq<char>| #[trigger]
                views(out@).contains(p) <==> phone_used(es.take(i + 1), p) by {
                let e2 = es.take(i + 1);
                if phone_used(e2, p) {
                    let (a, b) = choose|a: int, b: int|
                        0 <= a < e2.len() && 0 <= b < e2[a].syllables.len() && (
                        #[trigger] e2[a].syllables[b]).contains(p);
                    if a < i {
                        assert(es.take(i as int)[a].syllables[b].contains(p));
                    } else {
                        assert(views(syllables@[b]@) == ei.syllables[b]);
                    }
                }
                if before.contains(p) {
                    let (a, b) = choose|a: int, b: int|
                        0 <= a < i && 0 <= b < es.take(i as int)[a].syllables.len() && (
                        #[trigger] es.take(i as int)[a].syllables[b]).contains(p);
                    assert(e2[a].syllables[b].contains(p));
                }
                if exists|t: int| 0 <= t < j && (#[trigger] views(syllables@[t]@)).contains(p) {
                    let t = choose|t: int| 0 <= t < j && (#[trigger] views(syllables@[t]@)).contains(p);
                    assert(views(syllables@[t]@) == ei.syllables[t]);
                    assert(e2[i as int].syllables[t].contains(p));
                }
            }
        }
        i = i + 1;
    }
    assert(es.take(i as int) =~= es);
    out
}

} // verus!
