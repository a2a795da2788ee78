//! Character scanning and splitting over unicode scalar values, together
//! with the specification-level functions that model them.

use vstd::prelude::*;
use vstd::string::*;

verus! {

/// Index of the first occurrence of `c` in `s` at or after `from`;
/// `s.len()` when there is none.
pub open spec fn find_at(s: Seq<char>, c: char, from: nat) -> nat
    decreases s.len() - from,
{
    if from >= s.len() {
        s.len()
    } else if s[from as int] == c {
        from
    } else {
        find_at(s, c, (from + 1) as nat)
    }
}

/// `find_at` stays within bounds, lands on `c` when it finds one, and
/// skips no earlier occurrence.
pub proof fn lemma_find_at(s: Seq<char>, c: char, from: nat)
    ensures
        find_at(s, c, from) <= s.len(),
        find_at(s, c, from) < s.len() ==> from <= find_at(s, c, from) && s[find_at(
            s,
            c,
            from,
        ) as int] == c,
        forall|j: int| from <= j < find_at(s, c, from) && j < s.len() ==> s[j] != c,
    decreases s.len() - from,
{
    if from < s.len() && s[from as int] != c {
        lemma_find_at(s, c, (from + 1) as nat);
    }
}

/// Searching `s` from position `k + d` is searching the suffix `s.skip(k)`
/// from position `d`, shifted back by `k`.
pub proof fn lemma_find_at_shift(s: Seq<char>, c: char, k: nat, d: nat)
    requires
        k <= s.len(),
    ensures
        find_at(s, c, (k + d) as nat) == k + find_at(s.skip(k as int), c, d),
    decreases s.len() - k - d,
{
    let t = s.skip(k as int);
    if k + d >= s.len() {
        assert(find_at(t, c, d) == t.len());
    } else {
        assert(t[d as int] == s[(k + d) as int]);
        if s[(k + d) as int] != c {
            lemma_find_at_shift(s, c, k, (d + 1) as nat);
        }
    }
}

/// Splits `s` on every occurrence of `c`. There is always at least one
/// (possibly empty) segment.
pub open spec fn split_on(s: Seq<char>, c: char) -> Seq<Seq<char>>
    decreases s.len(),
{
    let i = find_at(s, c, 0);
    if i < s.len() {
        seq![s.take(i as int)] + split_on(s.skip(i as int + 1), c)
    } else {
        seq![s]
    }
}

/// The views of a sequence of strings.
pub open spec fn str_views(s: Seq<String>) -> Seq<Seq<char>> {
    s.map_values(|x: String| x@)
}

/// `s` with every carriage return removed, the rest kept in order.
pub open spec fn strip_cr(s: Seq<char>) -> Seq<char>
    decreases s.len(),
{
    if s.len() == 0 {
        Seq::empty()
    } else if s.last() == '\r' {
        strip_cr(s.drop_last())
    } else {
        strip_cr(s.drop_last()).push(s.last())
    }
}

/// First index of `c` in `s` at or after `from`, or the character length
/// of `s` when there is none.
pub fn find_from(s: &str, c: char, from: usize) -> (r: usize)
    ensures
        r as nat == find_at(s@, c, from as nat),
        r <= s@.len(),
{
    let n = s.unicode_len();
    let mut i = from;
    while i < n
        invariant
            n == s@.len(),
            find_at(s@, c, from as nat) == find_at(s@, c, i as nat),
        decreases n - i,
    {
        if s.get_char(i) == c {
            return i;
        }
        i += 1;
    }
    n
}

/// Splits `s` on every occurrence of `c`, as owned strings.
pub fn split_string(s: &str, c: char) -> (r: Vec<String>)
    ensures
        str_views(r@) == split_on(s@, c),
{
    let n = s.unicode_len();
    let mut r: Vec<String> = Vec::new();
    let mut start: usize = 0;
    proof {
        assert(str_views(r@) =~= Seq::<Seq<char>>::empty());
        assert(s@.skip(0) =~= s@);
    }
    loop
        invariant_except_break
            n == s@.len(),
            start <= n,
            split_on(s@, c) == str_views(r@) + split_on(s@.skip(start as int), c),
        ensures
            split_on(s@, c) == str_views(r@),
        decreases n - start,
    {
        let ghost prev = r@;
        let ghost tail = s@.skip(start as int);
        let e = find_from(s, c, start);
        proof {
            lemma_find_at(s@, c, start as nat);
            lemma_find_at_shift(s@, c, start as nat, 0);
            assert(find_at(tail, c, 0) == e - start);
        }
        let piece = s.substring_char(start, e).to_owned();
        r.push(piece);
        proof {
            assert(str_views(r@) =~= str_views(prev).push(piece@));
        }
        if e == n {
            proof {
                assert(find_at(tail, c, 0) == tail.len());
                assert(split_on(tail, c) == seq![tail]);
                assert(piece@ =~= tail);
                assert(str_views(r@) =~= str_views(prev) + seq![tail]);
            }
            break ;
        }
        proof {
            assert(find_at(tail, c, 0) < tail.len());
            assert(split_on(tail, c) == seq![tail.take(e - start)] + split_on(
                tail.skip(e - start + 1),
                c,
            ));
            assert(piece@ =~= tail.take(e - start));
            assert(tail.skip(e - start + 1) =~= s@.skip(e + 1));
            assert(str_views(r@) + split_on(s@.skip(e + 1), c) =~= str_views(prev) + split_on(
                tail,
                c,
            ));
        }
        start = e + 1;
    }
    r
}

/// `s` with every carriage return removed, as an owned string.
pub fn remove_cr(s: &str) -> (r: String)
    ensures
        r@ == strip_cr(s@),
{
    let n = s.unicode_len();
    let mut r = String::new();
    let mut i: usize = 0;
    while i < n
        invariant
            n == s@.len(),
            i <= n,
            r@ == strip_cr(s@.take(i as int)),
        decreases n - i,
    {
        let ghost prev = r@;
        let c = s.get_char(i);
        if c != '\r' {
            let piece = s.substring_char(i, i + 1);
            r.append(piece);
            proof {
                assert(piece@ =~= seq![s@[i as int]]);
                assert(r@ =~= prev.push(s@[i as int]));
            }
        }
        proof {
            let cur = s@.take(i as int + 1);
            assert(cur.drop_last() =~= s@.take(i as int));
            assert(cur.last() == s@[i as int]);
        }
        i += 1;
    }
    proof {
        assert(s@.take(n as int) =~= s@);
    }
    r
}

} // verus!
