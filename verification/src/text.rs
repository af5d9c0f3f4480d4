//! Verified character-level helpers: string equality, splitting on a
//! separator, and locating a character. Everything here is executable and
//! proved against the spec functions below; no outside code is involved.

use vstd::prelude::*;

verus! {

/// The pieces of `s` between occurrences of `sep`, in order. Splitting the
/// empty sequence yields one empty piece, as `str::split` does.
pub open spec fn spec_split(s: Seq<char>, sep: char) -> Seq<Seq<char>>
    decreases s.len(),
{
    if s.len() == 0 {
        seq![Seq::<char>::empty()]
    } else if s[0] == sep {
        seq![Seq::<char>::empty()].add(spec_split(s.drop_first(), sep))
    } else {
        let rest = spec_split(s.drop_first(), sep);
        rest.update(0, seq![s[0]].add(rest[0]))
    }
}

pub proof fn lemma_split_nonempty(s: Seq<char>, sep: char)
    ensures
        spec_split(s, sep).len() >= 1,
    decreases s.len(),
{
    if s.len() != 0 {
        lemma_split_nonempty(s.drop_first(), sep);
    }
}

/// A sequence ending in the separator splits into at least two pieces, the
/// last of them empty.
pub proof fn lemma_split_ends_sep(a: Seq<char>, sep: char)
    requires
        a.len() > 0,
        a.last() == sep,
    ensures
        spec_split(a, sep).len() >= 2,
        spec_split(a, sep).last().len() == 0,
    decreases a.len(),
{
    if a.len() == 1 {
        assert(a[0] == sep);
        assert(a.drop_first() =~= Seq::<char>::empty());
        assert(spec_split(a.drop_first(), sep) =~= seq![Seq::<char>::empty()]);
        assert(spec_split(a, sep) =~= seq![Seq::<char>::empty(), Seq::<char>::empty()]);
        assert(spec_split(a, sep).last() =~= Seq::<char>::empty());
    } else {
        assert(a.drop_first().last() == sep);
        lemma_split_ends_sep(a.drop_first(), sep);
        let r = spec_split(a.drop_first(), sep);
        if a[0] == sep {
            assert(spec_split(a, sep) == seq![Seq::<char>::empty()].add(r));
            assert(spec_split(a, sep).last() == r.last());
        } else {
            assert(spec_split(a, sep) == r.update(0, seq![a[0]].add(r[0])));
            assert(spec_split(a, sep).last() == r.last());
        }
    }
}

/// Splitting around a left part that ends in the separator: the pieces are
/// the left part's pieces but its empty last one, then the right part's.
pub proof fn lemma_split_concat(a: Seq<char>, b: Seq<char>, sep: char)
    requires
        a.len() > 0,
        a.last() == sep,
    ensures
        spec_split(a.add(b), sep) == spec_split(a, sep).drop_last().add(spec_split(b, sep)),
    decreases a.len(),
{
    lemma_split_ends_sep(a, sep);
    if a.len() == 1 {
        assert(a.add(b).drop_first() =~= b);
        assert(a.drop_first() =~= Seq::<char>::empty());
        assert(spec_split(a, sep) =~= seq![Seq::<char>::empty(), Seq::<char>::empty()]);
        assert(spec_split(a.add(b), sep) =~= seq![Seq::<char>::empty()].add(spec_split(b, sep)));
        assert(spec_split(a, sep).drop_last() =~= seq![Seq::<char>::empty()]);
    } else {
        assert(a.drop_first().last() == sep);
        lemma_split_ends_sep(a.drop_first(), sep);
        lemma_split_concat(a.drop_first(), b, sep);
        let r = spec_split(a.drop_first().add(b), sep);
        let r2 = spec_split(a.drop_first(), sep);
        assert(r == r2.drop_last().add(spec_split(b, sep)));
        assert(a.add(b).drop_first() =~= a.drop_first().add(b));
        lemma_split_nonempty(b, sep);
        if a[0] == sep {
            assert(spec_split(a.add(b), sep) == seq![Seq::<char>::empty()].add(r));
            assert(spec_split(a, sep) == seq![Seq::<char>::empty()].add(r2));
            assert(spec_split(a, sep).drop_last() =~= seq![Seq::<char>::empty()].add(
                r2.drop_last(),
            ));
            assert(seq![Seq::<char>::empty()].add(r2.drop_last()).add(spec_split(b, sep))
                =~= seq![Seq::<char>::empty()].add(r));
        } else {
            assert(r[0] == r2[0]);
            assert(spec_split(a.add(b), sep) == r.update(0, seq![a[0]].add(r[0])));
            assert(spec_split(a, sep) == r2.update(0, seq![a[0]].add(r2[0])));
            assert(spec_split(a, sep).drop_last() =~= r2.drop_last().update(
                0,
                seq![a[0]].add(r2[0]),
            ));
            assert(r2.drop_last().update(0, seq![a[0]].add(r2[0])).add(spec_split(b, sep))
                =~= r.update(0, seq![a[0]].add(r[0])));
        }
    }
}

/// The index of the first occurrence of `c` in `s`, if any.
pub open spec fn spec_find_char(s: Seq<char>, c: char) -> Option<int>
    decreases s.len(),
{
    if s.len() == 0 {
        None
    } else if s[0] == c {
        Some(0)
    } else {
        match spec_find_char(s.drop_first(), c) {
            None => None,
            Some(i) => Some(i + 1),
        }
    }
}

pub proof fn lemma_find_char_props(s: Seq<char>, c: char)
    ensures
        match spec_find_char(s, c) {
            None => forall|j: int| 0 <= j < s.len() ==> s[j] != c,
            Some(i) => 0 <= i < s.len() && s[i] == c && (forall|j: int| 0 <= j < i ==> s[j] != c),
        },
    decreases s.len(),
{
    if s.len() != 0 && s[0] != c {
        lemma_find_char_props(s.drop_first(), c);
        assert(forall|j: int| 1 <= j < s.len() ==> s[j] == s.drop_first()[j - 1]);
    }
}

/// Character-by-character string equality, proved to decide view equality.
pub fn str_eq(a: &str, b: &str) -> (r: bool)
    ensures
        r == (a@ == b@),
{
    let alen = a.unicode_len();
    let blen = b.unicode_len();
    if alen != blen {
        return false;
    }
    let mut i: usize = 0;
    while i < alen
        invariant
            alen == a@.len(),
            blen == b@.len(),
            alen == blen,
            0 <= i <= alen,
            forall|j: int| 0 <= j < i ==> a@[j] == b@[j],
        decreases alen - i,
    {
        if a.get_char(i) != b.get_char(i) {
            return false;
        }
        i += 1;
    }
    proof {
        assert(a@ =~= b@);
    }
    true
}

/// The first index holding `c`, scanning left to right.
pub fn find_char(s: &str, c: char) -> (r: Option<usize>)
    ensures
        match r {
            None => spec_find_char(s@, c) is None,
            Some(i) => spec_find_char(s@, c) == Some(i as int),
        },
{
    let n = s.unicode_len();
    let mut i: usize = 0;
    while i < n
        invariant
            n == s@.len(),
            0 <= i <= n,
            forall|j: int| 0 <= j < i ==> s@[j] != c,
        decreases n - i,
    {
        if s.get_char(i) == c {
            proof {
                lemma_find_char_props(s@, c);
            }
            return Some(i);
        }
        i += 1;
    }
    proof {
        lemma_find_char_props(s@, c);
    }
    None
}

/// Splits `s` on `sep`, returning borrowed pieces whose views are exactly
/// `spec_split(s@, sep)`.
pub fn split_char<'a>(s: &'a str, sep: char) -> (r: Vec<&'a str>)
    ensures
        r@.len() == spec_split(s@, sep).len(),
        forall|i: int| 0 <= i < r@.len() ==> r@[i]@ == spec_split(s@, sep)[i],
{
    let n = s.unicode_len();
    let mut acc: Vec<&'a str> = Vec::new();
    let mut start: usize = 0;
    let mut i: usize = 0;
    proof {
        let tail0 = spec_split(s@.subrange(0, n as int), sep);
        assert(s@.subrange(0, n as int) =~= s@);
        lemma_split_nonempty(s@, sep);
        assert(s@.subrange(0, 0).add(tail0[0]) =~= tail0[0]);
        assert(tail0.update(0, s@.subrange(0, 0).add(tail0[0])) =~= tail0);
        assert(Seq::new(acc@.len(), |k: int| acc@[k]@).add(tail0) =~= tail0);
    }
    while i < n
        invariant
            n == s@.len(),
            0 <= start <= i <= n,
            forall|j: int| start <= j < i ==> s@[j] != sep,
            spec_split(s@, sep) =~= ({
                let tail = spec_split(s@.subrange(i as int, n as int), sep);
                Seq::new(acc@.len(), |k: int| acc@[k]@).add(
                    tail.update(0, s@.subrange(start as int, i as int).add(tail[0])),
                )
            }),
        decreases n - i,
    {
        let ghost tail = spec_split(s@.subrange(i as int, n as int), sep);
        proof {
            lemma_split_nonempty(s@.subrange(i as int, n as int), sep);
            lemma_split_nonempty(s@.subrange(i as int + 1, n as int), sep);
        }
        let ghost tail2 = spec_split(s@.subrange(i as int + 1, n as int), sep);
        if s.get_char(i) == sep {
            let piece = s.substring_char(start, i);
            acc.push(piece);
            proof {
                assert(s@.subrange(i as int, n as int).drop_first() =~= s@.subrange(
                    i as int + 1,
                    n as int,
                ));
                assert(tail =~= seq![Seq::<char>::empty()].add(tail2));
                assert(tail[0] =~= Seq::<char>::empty());
                assert(s@.subrange(start as int, i as int).add(tail[0]) =~= s@.subrange(
                    start as int,
                    i as int,
                ));
                assert(tail.update(0, s@.subrange(start as int, i as int).add(tail[0]))
                    =~= seq![s@.subrange(start as int, i as int)].add(tail2));
                assert(Seq::new(acc@.len(), |k: int| acc@[k]@) =~= Seq::new((acc@.len() - 1) as nat, |k: int| acc@[k]@).add(seq![s@.subrange(start as int, i as int)]));
                assert(Seq::<char>::empty().add(tail2[0]) =~= tail2[0]);
                assert(tail2.update(0, Seq::<char>::empty().add(tail2[0])) =~= tail2);
                assert(spec_split(s@, sep) =~= Seq::new(acc@.len(), |k: int| acc@[k]@).add(
                    tail2.update(0, Seq::<char>::empty().add(tail2[0])),
                ));
            }
            start = i + 1;
            i = i + 1;
            proof {
                assert(s@.subrange(start as int, i as int) =~= Seq::<char>::empty());
                assert(tail2.update(0, s@.subrange(start as int, i as int).add(tail2[0]))
                    =~= tail2);
            }
        } else {
            proof {
                let mid = s@.subrange(i as int, n as int);
                assert(mid[0] == s@[i as int]);
                assert(mid.drop_first() =~= s@.subrange(i as int + 1, n as int));
                assert(tail =~= tail2.update(0, seq![s@[i as int]].add(tail2[0])));
                assert(s@.subrange(start as int, i as int).add(tail[0]) =~= s@.subrange(
                    start as int,
                    i as int + 1,
                ).add(tail2[0]));
                assert(tail.update(0, s@.subrange(start as int, i as int).add(tail[0]))
                    =~= tail2.update(
                    0,
                    s@.subrange(start as int, i as int + 1).add(tail2[0]),
                ));
            }
            i = i + 1;
        }
    }
    let last = s.substring_char(start, n);
    acc.push(last);
    proof {
        let tail = spec_split(s@.subrange(n as int, n as int), sep);
        assert(s@.subrange(n as int, n as int) =~= Seq::<char>::empty());
        assert(tail =~= seq![Seq::<char>::empty()]);
        assert(s@.subrange(start as int, n as int).add(tail[0]) =~= s@.subrange(
            start as int,
            n as int,
        ));
        assert(tail.update(0, s@.subrange(start as int, n as int).add(tail[0])) =~= seq![
            s@.subrange(start as int, n as int),
        ]);
        assert(Seq::new(acc@.len(), |k: int| acc@[k]@) =~= Seq::new((acc@.len() - 1) as nat, |k: int| acc@[k]@).add(seq![s@.subrange(start as int, n as int)]));
        assert(spec_split(s@, sep) =~= Seq::new(acc@.len(), |k: int| acc@[k]@));
    }
    acc
}

} // verus!
