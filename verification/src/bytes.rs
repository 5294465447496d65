//! Byte-level helpers shared by the codec, version and integration modules.
//!
//! All identity and file-name handling in this crate is ASCII, so text is
//! carried as `Vec<u8>` and specified over `Seq<u8>`.

use vstd::prelude::*;

verus! {

/// ASCII lower-casing of one byte.
pub open spec fn lower_byte(c: u8) -> u8 {
    if 65 <= c <= 90 {
        (c + 32) as u8
    } else {
        c
    }
}

/// ASCII lower-casing of a byte sequence.
pub open spec fn lower(s: Seq<u8>) -> Seq<u8> {
    s.map_values(|c: u8| lower_byte(c))
}

/// `s` ends with the suffix `suf`.
pub open spec fn ends_with(s: Seq<u8>, suf: Seq<u8>) -> bool {
    s.len() >= suf.len() && s.subrange(s.len() - suf.len(), s.len() as int) == suf
}

/// `s` starts with the prefix `pre`.
pub open spec fn starts_with(s: Seq<u8>, pre: Seq<u8>) -> bool {
    s.len() >= pre.len() && s.subrange(0, pre.len() as int) == pre
}

/// ASCII lower-casing, byte by byte.
pub fn to_lower(s: &[u8]) -> (r: Vec<u8>)
    ensures
        r@ == lower(s@),
{
    let mut r: Vec<u8> = Vec::new();
    let mut i: usize = 0;
    while i < s.len()
        invariant
            i <= s.len(),
            r@ == lower(s@.subrange(0, i as int)),
        decreases s.len() - i,
    {
        let c = s[i];
        if 65 <= c && c <= 90 {
            r.push(c + 32);
        } else {
            r.push(c);
        }
        proof {
            assert(s@.subrange(0, i + 1) == s@.subrange(0, i as int).push(s@[i as int]));
            assert(lower(s@.subrange(0, i + 1)) == lower(s@.subrange(0, i as int)).push(
                lower_byte(s@[i as int]),
            ));
        }
        i = i + 1;
    }
    proof {
        assert(s@.subrange(0, s@.len() as int) == s@);
    }
    r
}

/// Suffix test, used for the case-insensitive bundle-extension checks.
pub fn has_suffix(s: &[u8], suf: &[u8]) -> (r: bool)
    ensures
        r == ends_with(s@, suf@),
{
    if s.len() < suf.len() {
        return false;
    }
    let off: usize = s.len() - suf.len();
    let mut i: usize = 0;
    while i < suf.len()
        invariant
            i <= suf.len(),
            off == s@.len() - suf@.len(),
            s@.len() <= usize::MAX,
            forall|j: int| 0 <= j < i ==> s@[off + j] == suf@[j],
        decreases suf.len() - i,
    {
        assert(off + i < s@.len());
        if s[off + i] != suf[i] {
            assert(s@.subrange(off as int, s@.len() as int)[i as int] != suf@[i as int]);
            return false;
        }
        i = i + 1;
    }
    proof {
        assert(s@.subrange(off as int, s@.len() as int) =~= suf@);
    }
    true
}

/// Split `s` at every occurrence of the delimiter `d`. A sequence with no
/// delimiter yields itself as the only part; every delimiter adds one part,
/// so the result never is empty and joining the parts with `d` restores `s`.
pub open spec fn split_on(s: Seq<u8>, d: u8) -> Seq<Seq<u8>>
    decreases s.len(),
{
    if s.len() == 0 {
        seq![Seq::<u8>::empty()]
    } else if s[0] == d {
        seq![Seq::<u8>::empty()] + split_on(s.skip(1), d)
    } else {
        let rest = split_on(s.skip(1), d);
        seq![seq![s[0]] + rest[0]] + rest.skip(1)
    }
}

/// Join the parts with the delimiter `d` between them.
pub open spec fn join_with(parts: Seq<Seq<u8>>, d: u8) -> Seq<u8>
    decreases parts.len(),
{
    if parts.len() == 0 {
        Seq::empty()
    } else if parts.len() == 1 {
        parts[0]
    } else {
        parts[0] + seq![d] + join_with(parts.skip(1), d)
    }
}

pub proof fn lemma_split_len(s: Seq<u8>, d: u8)
    ensures
        split_on(s, d).len() >= 1,
    decreases s.len(),
{
    if s.len() != 0 {
        lemma_split_len(s.skip(1), d);
    }
}

/// A delimiter-free sequence is its own single part.
pub proof fn lemma_split_no_delim(s: Seq<u8>, d: u8)
    requires
        forall|i: int| 0 <= i < s.len() ==> s[i] != d,
    ensures
        split_on(s, d) =~~= seq![s],
    decreases s.len(),
{
    if s.len() != 0 {
        lemma_split_no_delim(s.skip(1), d);
        let rest = split_on(s.skip(1), d);
        assert(rest[0] == s.skip(1));
        assert(seq![s[0]] + s.skip(1) =~= s);
        assert(rest.skip(1) =~~= Seq::<Seq<u8>>::empty());
    }
}

/// Splitting after a delimiter-free prefix and one delimiter starts over.
pub proof fn lemma_split_concat(a: Seq<u8>, b: Seq<u8>, d: u8)
    requires
        forall|i: int| 0 <= i < a.len() ==> a[i] != d,
    ensures
        split_on(a + seq![d] + b, d) =~~= seq![a] + split_on(b, d),
    decreases a.len(),
{
    let s = a + seq![d] + b;
    if a.len() == 0 {
        assert(s =~= seq![d] + b);
        assert(s[0] == d);
        assert(s.skip(1) =~= b);
        lemma_split_len(b, d);
    } else {
        lemma_split_concat(a.skip(1), b, d);
        assert(s.skip(1) =~= a.skip(1) + seq![d] + b);
        lemma_split_len(a.skip(1) + seq![d] + b, d);
        let rest = split_on(s.skip(1), d);
        assert(rest =~~= seq![a.skip(1)] + split_on(b, d));
        assert(rest[0] == a.skip(1));
        assert(seq![s[0]] + rest[0] =~= a);
        assert(rest.skip(1) =~~= split_on(b, d));
    }
}

/// Joining the parts of a split restores the original sequence.
pub proof fn lemma_join_split(s: Seq<u8>, d: u8)
    ensures
        join_with(split_on(s, d), d) =~= s,
    decreases s.len(),
{
    if s.len() == 0 {
    } else if s[0] == d {
        lemma_join_split(s.skip(1), d);
        lemma_split_len(s.skip(1), d);
        let parts = seq![Seq::<u8>::empty()] + split_on(s.skip(1), d);
        assert(parts.skip(1) =~= split_on(s.skip(1), d));
        assert(join_with(parts, d) =~= seq![d] + join_with(split_on(s.skip(1), d), d));
        assert(seq![d] + s.skip(1) =~= s);
    } else {
        lemma_join_split(s.skip(1), d);
        lemma_split_len(s.skip(1), d);
        let rest = split_on(s.skip(1), d);
        let parts = seq![seq![s[0]] + rest[0]] + rest.skip(1);
        if rest.len() == 1 {
            assert(parts.len() == 1);
            assert(join_with(rest, d) == rest[0]);
            assert(join_with(parts, d) =~= seq![s[0]] + rest[0]);
            assert(seq![s[0]] + s.skip(1) =~= s);
        } else {
            assert(parts.skip(1) =~= rest.skip(1));
            assert(join_with(rest, d) =~= rest[0] + seq![d] + join_with(rest.skip(1), d));
            assert(join_with(parts, d) =~= (seq![s[0]] + rest[0]) + seq![d] + join_with(
                rest.skip(1),
                d,
            ));
            assert(join_with(parts, d) =~= seq![s[0]] + join_with(rest, d));
            assert(seq![s[0]] + s.skip(1) =~= s);
        }
    }
}

/// How a split grows when one byte is appended: a delimiter opens a new empty
/// part, any other byte extends the last part.
pub proof fn lemma_split_push(s: Seq<u8>, d: u8, c: u8)
    ensures
        split_on(s, d).len() >= 1,
        c == d ==> split_on(s.push(c), d) =~~= split_on(s, d).push(Seq::<u8>::empty()),
        c != d ==> split_on(s.push(c), d) =~~= split_on(s, d).update(
            split_on(s, d).len() - 1,
            split_on(s, d).last().push(c),
        ),
    decreases s.len(),
{
    lemma_split_len(s, d);
    if s.len() == 0 {
        reveal_with_fuel(split_on, 3);
        assert(s.push(c) =~= seq![c]);
        if c == d {
            assert(s.push(c)[0] == d);
            assert(s.push(c).skip(1) =~= Seq::<u8>::empty());
            assert(split_on(s.push(c), d) =~~= split_on(s, d).push(Seq::<u8>::empty()));
        } else {
            assert(s.push(c).skip(1) =~= Seq::<u8>::empty());
            assert(split_on(s.push(c), d) =~~= seq![seq![c]]);
            assert(split_on(s, d).update(0, split_on(s, d).last().push(c)) =~~= seq![seq![c]]);
        }
    } else {
        lemma_split_push(s.skip(1), d, c);
        lemma_split_len(s.skip(1), d);
        assert(s.push(c)[0] == s[0]);
        assert(s.push(c).skip(1) =~= s.skip(1).push(c));
        let rest = split_on(s.skip(1), d);
        let rest2 = split_on(s.skip(1).push(c), d);
        if s[0] == d {
            if c == d {
                assert(split_on(s.push(c), d) =~~= seq![Seq::<u8>::empty()] + rest.push(
                    Seq::<u8>::empty(),
                ));
                assert(split_on(s.push(c), d) =~~= split_on(s, d).push(Seq::<u8>::empty()));
            } else {
                assert(rest2 =~~= rest.update(rest.len() - 1, rest.last().push(c)));
                assert(split_on(s.push(c), d) =~~= seq![Seq::<u8>::empty()] + rest2);
                assert(split_on(s.push(c), d) =~~= split_on(s, d).update(
                    split_on(s, d).len() - 1,
                    split_on(s, d).last().push(c),
                ));
            }
        } else {
            if c == d {
                assert(rest2 =~~= rest.push(Seq::<u8>::empty()));
                assert(rest2[0] == rest[0]);
                assert(split_on(s.push(c), d) =~~= seq![seq![s[0]] + rest2[0]] + rest2.skip(1));
                assert(rest2.skip(1) =~~= rest.skip(1).push(Seq::<u8>::empty()));
                assert(split_on(s.push(c), d) =~~= split_on(s, d).push(Seq::<u8>::empty()));
            } else {
                assert(rest2 =~~= rest.update(rest.len() - 1, rest.last().push(c)));
                if rest.len() == 1 {
                    assert(rest2[0] == rest[0].push(c));
                    assert(split_on(s.push(c), d) =~~= seq![seq![s[0]] + rest[0].push(c)]);
                    assert(split_on(s, d) =~~= seq![seq![s[0]] + rest[0]]);
                    assert(seq![s[0]] + rest[0].push(c) =~= (seq![s[0]] + rest[0]).push(c));
                    assert(split_on(s.push(c), d) =~~= split_on(s, d).update(
                        split_on(s, d).len() - 1,
                        split_on(s, d).last().push(c),
                    ));
                } else {
                    assert(rest2[0] == rest[0]);
                    assert(split_on(s.push(c), d) =~~= seq![seq![s[0]] + rest[0]] + rest2.skip(1));
                    assert(rest2.skip(1) =~~= rest.skip(1).update(
                        rest.skip(1).len() - 1,
                        rest.skip(1).last().push(c),
                    ));
                    assert(split_on(s.push(c), d) =~~= split_on(s, d).update(
                        split_on(s, d).len() - 1,
                        split_on(s, d).last().push(c),
                    ));
                }
            }
        }
    }
}

/// Split into parts, one `Vec` per part.
pub fn split_bytes(s: &[u8], d: u8) -> (r: Vec<Vec<u8>>)
    ensures
        r.deep_view() == split_on(s@, d),
        r.len() >= 1,
{
    let mut r: Vec<Vec<u8>> = Vec::new();
    let mut cur: Vec<u8> = Vec::new();
    let mut i: usize = 0;
    proof {
        assert(r.deep_view().push(cur@) =~~= split_on(s@.subrange(0, 0), d));
    }
    while i < s.len()
        invariant
            i <= s.len(),
            r.deep_view().push(cur@) == split_on(s@.subrange(0, i as int), d),
        decreases s.len() - i,
    {
        proof {
            assert(s@.subrange(0, i + 1) =~= s@.subrange(0, i as int).push(s@[i as int]));
            lemma_split_push(s@.subrange(0, i as int), d, s@[i as int]);
        }
        let ghost prev_dv = r.deep_view();
        let ghost prev = split_on(s@.subrange(0, i as int), d);
        let ghost cur_snap = cur@;
        let c = s[i];
        if c == d {
            r.push(cur);
            cur = Vec::new();
            proof {
                assert(r.deep_view() =~~= prev_dv.push(cur_snap));
                assert(r.deep_view().push(cur@) =~~= split_on(s@.subrange(0, i + 1), d));
            }
        } else {
            cur.push(c);
            proof {
                assert(r.deep_view().push(cur@) =~~= prev.update(
                    prev.len() - 1,
                    prev.last().push(c),
                ));
                assert(r.deep_view().push(cur@) =~~= split_on(s@.subrange(0, i + 1), d));
            }
        }
        i = i + 1;
    }
    proof {
        assert(s@.subrange(0, s@.len() as int) =~= s@);
        lemma_split_len(s@, d);
    }
    let ghost prev_dv = r.deep_view();
    let ghost cur_snap = cur@;
    r.push(cur);
    proof {
        assert(r.deep_view() =~~= prev_dv.push(cur_snap));
        assert(r.deep_view() =~~= split_on(s@, d));
    }
    r
}

/// Append `src` to `dst`.
pub fn append_bytes(dst: &mut Vec<u8>, src: &[u8])
    ensures
        final(dst)@ == old(dst)@ + src@,
{
    let mut i: usize = 0;
    while i < src.len()
        invariant
            i <= src.len(),
            dst@ == old(dst)@ + src@.subrange(0, i as int),
        decreases src.len() - i,
    {
        dst.push(src[i]);
        proof {
            assert(old(dst)@ + src@.subrange(0, i + 1) =~= (old(dst)@ + src@.subrange(
                0,
                i as int,
            )).push(src@[i as int]));
        }
        i = i + 1;
    }
    proof {
        assert(src@.subrange(0, src@.len() as int) =~= src@);
    }
}


/// How a join grows when one part is appended.
pub proof fn lemma_join_push(s: Seq<Seq<u8>>, x: Seq<u8>, d: u8)
    ensures
        join_with(s.push(x), d) == if s.len() == 0 {
            x
        } else {
            join_with(s, d) + seq![d] + x
        },
    decreases s.len(),
{
    if s.len() == 0 {
        assert(s.push(x).len() == 1);
        assert(join_with(s.push(x), d) == s.push(x)[0]);
    } else if s.len() == 1 {
        reveal_with_fuel(join_with, 3);
        assert(s.push(x).skip(1) =~~= seq![x]);
        assert(join_with(s.push(x), d) =~= s[0] + seq![d] + x);
    } else {
        lemma_join_push(s.skip(1), x, d);
        assert(s.push(x).skip(1) =~~= s.skip(1).push(x));
        assert(join_with(s.push(x), d) =~= s[0] + seq![d] + join_with(s.skip(1).push(x), d));
        assert(s[0] + seq![d] + (join_with(s.skip(1), d) + seq![d] + x) =~= (s[0] + seq![d]
            + join_with(s.skip(1), d)) + seq![d] + x);
    }
}

/// Drop every leading occurrence of `c`.
pub open spec fn strip_leading(s: Seq<u8>, c: u8) -> Seq<u8>
    decreases s.len(),
{
    if s.len() > 0 && s[0] == c {
        strip_leading(s.skip(1), c)
    } else {
        s
    }
}

/// A sequence that does not start with `c` is left alone.
pub proof fn lemma_strip_leading_noop(s: Seq<u8>, c: u8)
    requires
        s.len() == 0 || s[0] != c,
    ensures
        strip_leading(s, c) == s,
{
}

/// Drop every leading occurrence of `c`, byte for byte.
pub fn strip_leading_bytes(s: &[u8], c: u8) -> (r: Vec<u8>)
    ensures
        r@ == strip_leading(s@, c),
{
    let mut i: usize = 0;
    proof {
        assert(s@.skip(0) =~= s@);
    }
    while i < s.len() && s[i] == c
        invariant
            i <= s.len(),
            forall|j: int| 0 <= j < i ==> s@[j] == c,
            strip_leading(s@, c) == strip_leading(s@.skip(i as int), c),
        decreases s.len() - i,
    {
        proof {
            assert(s@.skip(i as int).len() > 0 && s@.skip(i as int)[0] == c);
            assert(s@.skip(i as int).skip(1) =~= s@.skip(i + 1));
        }
        i = i + 1;
    }
    let mut r: Vec<u8> = Vec::new();
    let mut j: usize = i;
    while j < s.len()
        invariant
            i <= j <= s.len(),
            r@ == s@.subrange(i as int, j as int),
        decreases s.len() - j,
    {
        r.push(s[j]);
        proof {
            assert(s@.subrange(i as int, j + 1) =~= s@.subrange(i as int, j as int).push(
                s@[j as int],
            ));
        }
        j = j + 1;
    }
    proof {
        if i < s@.len() {
            assert(s@.skip(i as int).len() > 0 && s@.skip(i as int)[0] != c);
        }
        assert(r@ =~= s@.skip(i as int));
    }
    r
}


/// Drop every trailing occurrence of `c`.
pub open spec fn strip_trailing(s: Seq<u8>, c: u8) -> Seq<u8>
    decreases s.len(),
{
    if s.len() > 0 && s.last() == c {
        strip_trailing(s.drop_last(), c)
    } else {
        s
    }
}

/// Drop every trailing occurrence of `c`, byte for byte.
pub fn strip_trailing_bytes(s: &[u8], c: u8) -> (r: Vec<u8>)
    ensures
        r@ == strip_trailing(s@, c),
{
    let mut n: usize = s.len();
    proof {
        assert(s@.subrange(0, s@.len() as int) =~= s@);
    }
    while n > 0 && s[n - 1] == c
        invariant
            n <= s.len(),
            strip_trailing(s@, c) == strip_trailing(s@.subrange(0, n as int), c),
        decreases n,
    {
        proof {
            let cur = s@.subrange(0, n as int);
            assert(cur.len() > 0 && cur.last() == c);
            assert(cur.drop_last() =~= s@.subrange(0, n - 1));
        }
        n = n - 1;
    }
    proof {
        let cur = s@.subrange(0, n as int);
        if n > 0 {
            assert(cur.last() == s@[n - 1]);
        }
        assert(strip_trailing(cur, c) == cur);
    }
    let mut r: Vec<u8> = Vec::new();
    let mut j: usize = 0;
    while j < n
        invariant
            j <= n <= s@.len(),
            r@ == s@.subrange(0, j as int),
        decreases n - j,
    {
        r.push(s[j]);
        proof {
            assert(s@.subrange(0, j + 1) =~= s@.subrange(0, j as int).push(s@[j as int]));
        }
        j = j + 1;
    }
    r
}

/// Byte-for-byte equality.
pub fn bytes_eq(a: &[u8], b: &[u8]) -> (r: bool)
    ensures
        r == (a@ == b@),
{
    if a.len() != b.len() {
        return false;
    }
    let mut i: usize = 0;
    while i < a.len()
        invariant
            i <= a.len(),
            a@.len() == b@.len(),
            forall|j: int| 0 <= j < i ==> a@[j] == b@[j],
        decreases a.len() - i,
    {
        if a[i] != b[i] {
            return false;
        }
        i = i + 1;
    }
    proof {
        assert(a@ =~= b@);
    }
    true
}

/// `sub` occurs somewhere inside `s`.
pub open spec fn contains_seq(s: Seq<u8>, sub: Seq<u8>) -> bool {
    exists|i: int| 0 <= i <= s.len() - sub.len() && #[trigger] s.subrange(i, i + sub.len()) == sub
}

/// Substring search, byte for byte.
pub fn contains_bytes(s: &[u8], sub: &[u8]) -> (r: bool)
    ensures
        r == contains_seq(s@, sub@),
{
    if sub.len() > s.len() {
        return false;
    }
    if sub.len() == 0 {
        proof {
            assert(s@.subrange(0, 0 + sub@.len() as int) =~= sub@);
        }
        return true;
    }
    let count: usize = s.len() - sub.len() + 1;
    let mut i: usize = 0;
    while i < count
        invariant
            i <= count,
            count == s@.len() - sub@.len() + 1,
            sub@.len() >= 1,
            s@.len() <= usize::MAX,
            forall|k: int| 0 <= k < i ==> #[trigger] s@.subrange(k, k + sub@.len()) != sub@,
        decreases count - i,
    {
        let window = vstd::slice::slice_subrange(s, i, i + sub.len());
        if has_prefix(window, sub) {
            proof {
                assert(window@.subrange(0, sub@.len() as int) =~= window@);
                assert(s@.subrange(i as int, i + sub@.len()) == sub@);
            }
            return true;
        }
        proof {
            assert(window@.subrange(0, sub@.len() as int) =~= window@);
        }
        i = i + 1;
    }
    false
}

/// Prefix test, used for the `Icon=` / `Exec=` line rewriting.
pub fn has_prefix(s: &[u8], pre: &[u8]) -> (r: bool)
    ensures
        r == starts_with(s@, pre@),
{
    if s.len() < pre.len() {
        return false;
    }
    let mut i: usize = 0;
    while i < pre.len()
        invariant
            i <= pre.len(),
            pre@.len() <= s@.len(),
            forall|j: int| 0 <= j < i ==> s@[j] == pre@[j],
        decreases pre.len() - i,
    {
        if s[i] != pre[i] {
            assert(s@.subrange(0, pre@.len() as int)[i as int] != pre@[i as int]);
            return false;
        }
        i = i + 1;
    }
    proof {
        assert(s@.subrange(0, pre@.len() as int) =~= pre@);
    }
    true
}

} // verus!
