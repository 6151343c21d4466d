use vstd::prelude::*;

verus! {

/// `s` without its first character when that character is `c`.
pub open spec fn strip_leading(s: Seq<char>, c: char) -> Seq<char> {
    if s.len() > 0 && s[0] == c {
        s.drop_first()
    } else {
        s
    }
}

/// `s` without its last character when that character is `c`.
pub open spec fn strip_trailing(s: Seq<char>, c: char) -> Seq<char> {
    if s.len() > 0 && s.last() == c {
        s.drop_last()
    } else {
        s
    }
}

/// One leading and one trailing `c` removed, each only where present.
pub open spec fn stripped(s: Seq<char>, c: char) -> Seq<char> {
    strip_trailing(strip_leading(s, c), c)
}

/// Removes one leading and one trailing `c` from `s`, each only where it is
/// present; a string without either delimiter comes back unchanged.
pub fn strip_both(s: &str, c: char) -> (r: &str)
    ensures
        r@ == stripped(s@, c),
        (s@.len() == 0 || (s@[0] != c && s@.last() != c)) ==> r@ == s@,
{
    let n = s.unicode_len();
    let mut start: usize = 0;
    if n > 0 && s.get_char(0) == c {
        start = 1;
    }
    let mut end: usize = n;
    if n > start && s.get_char(n - 1) == c {
        end = n - 1;
    }
    let r = s.substring_char(start, end);
    proof {
        let l = strip_leading(s@, c);
        if start == 1 {
            assert(l =~= s@.subrange(1, n as int));
        } else {
            assert(l =~= s@);
        }
        if end < n {
            assert(l.last() == s@.last());
        }
        assert(r@ =~= stripped(s@, c));
    }
    r
}

} // verus!
