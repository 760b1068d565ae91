//! Byte-text operations shared by the stages: equality, delimiter
//! splitting and pattern replacement, each pinned to a recursive
//! specification over byte sequences.

use vstd::prelude::*;

verus! {

/// The views of a list of byte vectors.
pub open spec fn byte_views(r: Seq<Vec<u8>>) -> Seq<Seq<u8>> {
    r.map_values(|v: Vec<u8>| v@)
}

/// Appends the bytes `t[a..b]`.
pub fn push_range(out: &mut Vec<u8>, t: &[u8], a: usize, b: usize)
    requires
        a <= b <= t@.len(),
    ensures
        final(out)@ == old(out)@ + t@.subrange(a as int, b as int),
{
    let mut i = a;
    proof {
        assert(out@ =~= old(out)@ + t@.subrange(a as int, a as int));
    }
    while i < b
        invariant
            a <= i <= b <= t@.len(),
            out@ =~= old(out)@ + t@.subrange(a as int, i as int),
        decreases b - i,
    {
        out.push(t[i]);
        i = i + 1;
        proof {
            assert(out@ =~= old(out)@ + t@.subrange(a as int, i as int));
        }
    }
}

/// Copies one byte vector.
pub fn clone_bytes(c: &Vec<u8>) -> (r: Vec<u8>)
    ensures
        r@ == c@,
{
    let mut r: Vec<u8> = Vec::new();
    push_range(&mut r, c.as_slice(), 0, c.len());
    proof {
        assert(r@ =~= c@);
    }
    r
}

/// Whether two byte vectors hold the same bytes.
pub fn bytes_eq(a: &Vec<u8>, b: &Vec<u8>) -> (r: bool)
    ensures
        r == (a@ == b@),
{
    if a.len() != b.len() {
        return false;
    }
    let n = a.len();
    let mut i: usize = 0;
    while i < n
        invariant
            i <= n,
            n == a@.len() && n == b@.len(),
            forall|k: int| 0 <= k < i ==> a@[k] == b@[k],
        decreases n - i,
    {
        if a[i] != b[i] {
            return false;
        }
        i = i + 1;
    }
    proof {
        assert(a@ =~= b@);
    }
    true
}

/// Whether two byte slices hold the same bytes.
pub fn slices_eq(a: &[u8], b: &[u8]) -> (r: bool)
    ensures
        r == (a@ == b@),
{
    if a.len() != b.len() {
        return false;
    }
    let n = a.len();
    let mut i: usize = 0;
    while i < n
        invariant
            i <= n,
            n == a@.len() && n == b@.len(),
            forall|k: int| 0 <= k < i ==> a@[k] == b@[k],
        decreases n - i,
    {
        if a[i] != b[i] {
            return false;
        }
        i = i + 1;
    }
    proof {
        assert(a@ =~= b@);
    }
    true
}

/// First position of byte `d` in `s`, or `s.len()` when absent.
pub open spec fn find_byte(s: Seq<u8>, d: u8) -> nat
    decreases s.len(),
{
    if s.len() == 0 {
        0
    } else if s[0] == d {
        0
    } else {
        (1 + find_byte(s.skip(1), d)) as nat
    }
}

pub proof fn lemma_find_byte(s: Seq<u8>, d: u8)
    ensures
        find_byte(s, d) <= s.len(),
        find_byte(s, d) < s.len() ==> s[find_byte(s, d) as int] == d,
        forall|i: int| 0 <= i < find_byte(s, d) ==> s[i] != d,
    decreases s.len(),
{
    if s.len() > 0 && s[0] != d {
        lemma_find_byte(s.skip(1), d);
        let f = find_byte(s, d);
        assert forall|i: int| 0 <= i < f implies s[i] != d by {
            if i > 0 {
                assert(s.skip(1)[i - 1] == s[i]);
            }
        }
        if f < s.len() {
            assert(s.skip(1)[f - 1] == s[f as int]);
        }
    }
}

/// The fields of `s` between occurrences of the delimiter `d`: one more
/// field than there are delimiters, fields possibly empty.
pub open spec fn split_seq(s: Seq<u8>, d: u8) -> Seq<Seq<u8>>
    decreases s.len(),
{
    let k = find_byte(s, d);
    if k >= s.len() {
        seq![s]
    } else {
        seq![s.take(k as int)] + split_seq(s.skip(k as int + 1), d)
    }
}

pub proof fn lemma_split_seq_len(s: Seq<u8>, d: u8)
    ensures
        split_seq(s, d).len() >= 1,
    decreases s.len(),
{
    let k = find_byte(s, d);
    if k < s.len() {
        lemma_split_seq_len(s.skip(k as int + 1), d);
    }
}

/// Unfolds one byte of the split: a leading delimiter starts a new empty
/// field, any other byte extends the first field.
pub proof fn lemma_split_step(s: Seq<u8>, d: u8)
    requires
        s.len() > 0,
    ensures
        s[0] == d ==> split_seq(s, d) == seq![Seq::<u8>::empty()] + split_seq(s.skip(1), d),
        s[0] != d ==> split_seq(s, d) == seq![seq![s[0]] + split_seq(s.skip(1), d)[0]]
            + split_seq(s.skip(1), d).skip(1),
{
    lemma_split_seq_len(s.skip(1), d);
    if s[0] == d {
        assert(find_byte(s, d) == 0);
        assert(s.take(0) =~= Seq::<u8>::empty());
    } else {
        let rest = s.skip(1);
        let k2 = find_byte(rest, d);
        assert(find_byte(s, d) == 1 + k2);
        lemma_find_byte(rest, d);
        if k2 >= rest.len() {
            // No delimiter at all: one field, the whole text.
            assert(split_seq(rest, d) == seq![rest]);
            assert(seq![s[0]] + rest =~= s);
            assert(split_seq(rest, d).skip(1) =~= Seq::<Seq<u8>>::empty());
            assert(seq![seq![s[0]] + rest] + split_seq(rest, d).skip(1) =~= seq![s]);
        } else {
            assert(split_seq(s, d) == seq![s.take(k2 + 1int)] + split_seq(s.skip(k2 + 2int), d));
            assert(split_seq(rest, d) == seq![rest.take(k2 as int)] + split_seq(
                rest.skip(k2 as int + 1),
                d,
            ));
            assert(seq![s[0]] + rest.take(k2 as int) =~= s.take(k2 + 1int));
            assert(rest.skip(k2 as int + 1) =~= s.skip(k2 + 2int));
            assert(split_seq(rest, d)[0] == rest.take(k2 as int));
            assert(split_seq(rest, d).skip(1) =~= split_seq(s.skip(k2 + 2int), d));
            assert(seq![seq![s[0]] + split_seq(rest, d)[0]] + split_seq(rest, d).skip(1)
                =~= seq![s.take(k2 + 1int)] + split_seq(s.skip(k2 + 2int), d));
        }
    }
}

/// Splits `s` at every occurrence of the delimiter `d`.
pub fn split_bytes(s: &[u8], d: u8) -> (r: Vec<Vec<u8>>)
    ensures
        byte_views(r@) == split_seq(s@, d),
{
    let n = s.len();
    let mut out: Vec<Vec<u8>> = Vec::new();
    let mut cur: Vec<u8> = Vec::new();
    let mut i: usize = 0;
    proof {
        assert(s@.skip(0) =~= s@);
        lemma_split_seq_len(s@, d);
        assert(byte_views(out@) + seq![cur@ + split_seq(s@, d)[0]] + split_seq(s@, d).skip(1)
            =~= split_seq(s@, d)) by {
            assert(cur@ + split_seq(s@, d)[0] =~= split_seq(s@, d)[0]);
        }
    }
    while i < n
        invariant
            i <= n,
            n == s@.len(),
            split_seq(s@, d) =~= byte_views(out@) + seq![cur@ + split_seq(s@.skip(i as int), d)[0]]
                + split_seq(s@.skip(i as int), d).skip(1),
        decreases n - i,
    {
        let ghost rest = s@.skip(i as int);
        let ghost rest2 = s@.skip(i as int + 1);
        proof {
            assert(rest.len() > 0);
            assert(rest[0] == s@[i as int]);
            assert(rest.skip(1) =~= rest2);
            lemma_split_step(rest, d);
            lemma_split_seq_len(rest2, d);
        }
        if s[i] == d {
            let ghost old_out = out@;
            let ghost old_cur = cur@;
            out.push(cur);
            cur = Vec::new();
            proof {
                assert(byte_views(out@) =~= byte_views(old_out).push(old_cur));
                assert(split_seq(rest, d)[0] == Seq::<u8>::empty());
                assert(old_cur + Seq::<u8>::empty() =~= old_cur);
                assert(split_seq(rest, d).skip(1) =~= split_seq(rest2, d));
                assert(cur@ + split_seq(rest2, d)[0] =~= split_seq(rest2, d)[0]);
                assert(split_seq(s@, d) =~= byte_views(out@) + seq![cur@ + split_seq(rest2, d)[0]]
                    + split_seq(rest2, d).skip(1));
            }
        } else {
            let ghost old_cur = cur@;
            cur.push(s[i]);
            proof {
                assert(split_seq(rest, d)[0] == seq![rest[0]] + split_seq(rest2, d)[0]);
                assert(split_seq(rest, d).skip(1) =~= split_seq(rest2, d).skip(1));
                assert(cur@ + split_seq(rest2, d)[0] =~= old_cur + split_seq(rest, d)[0]);
                assert(split_seq(s@, d) =~= byte_views(out@) + seq![cur@ + split_seq(rest2, d)[0]]
                    + split_seq(rest2, d).skip(1));
            }
        }
        i = i + 1;
    }
    let ghost tail = s@.skip(n as int);
    proof {
        assert(tail =~= Seq::<u8>::empty());
        assert(find_byte(tail, d) == 0);
        assert(split_seq(tail, d) == seq![tail]);
        assert(cur@ + tail =~= cur@);
        assert(split_seq(tail, d).skip(1) =~= Seq::<Seq<u8>>::empty());
    }
    let ghost old_out = out@;
    let ghost old_cur = cur@;
    out.push(cur);
    proof {
        assert(byte_views(out@) =~= byte_views(old_out).push(old_cur));
        assert(split_seq(s@, d) =~= byte_views(out@));
    }
    out
}

/// `s` carries the pattern `pat` at position `i`.
pub fn prefix_match(s: &[u8], i: usize, pat: &[u8]) -> (r: bool)
    requires
        i <= s@.len(),
    ensures
        r == (i + pat@.len() <= s@.len() && s@.subrange(i as int, i as int + pat@.len() as int)
            == pat@),
{
    let m = pat.len();
    let n = s.len();
    if m > n - i {
        return false;
    }
    let mut k: usize = 0;
    while k < m
        invariant
            k <= m,
            m == pat@.len(),
            n == s@.len(),
            i + m <= n,
            forall|t: int| 0 <= t < k ==> s@[i + t] == pat@[t],
        decreases m - k,
    {
        if s[i + k] != pat[k] {
            proof {
                assert(s@.subrange(i as int, i as int + m as int)[k as int] != pat@[k as int]);
            }
            return false;
        }
        k = k + 1;
    }
    proof {
        assert(s@.subrange(i as int, i as int + m as int) =~= pat@);
    }
    true
}

/// `s` with every occurrence of `pat` replaced by `rep`, scanning left to
/// right and never rescanning replaced text.
pub open spec fn replace_seq(s: Seq<u8>, pat: Seq<u8>, rep: Seq<u8>) -> Seq<u8>
    decreases s.len(),
{
    if s.len() == 0 {
        s
    } else if pat.len() > 0 && s.len() >= pat.len() && s.take(pat.len() as int) == pat {
        rep + replace_seq(s.skip(pat.len() as int), pat, rep)
    } else {
        seq![s[0]] + replace_seq(s.skip(1), pat, rep)
    }
}

/// Replaces every occurrence of `pat` in `s` by `rep`.
pub fn replace_bytes(s: &[u8], pat: &[u8], rep: &[u8]) -> (r: Vec<u8>)
    requires
        pat@.len() >= 1,
    ensures
        r@ == replace_seq(s@, pat@, rep@),
{
    let n = s.len();
    let m = pat.len();
    let mut out: Vec<u8> = Vec::new();
    let mut i: usize = 0;
    proof {
        assert(s@.skip(0) =~= s@);
        assert(out@ + replace_seq(s@, pat@, rep@) =~= replace_seq(s@, pat@, rep@));
    }
    while i < n
        invariant
            i <= n,
            n == s@.len(),
            m == pat@.len(),
            m >= 1,
            replace_seq(s@, pat@, rep@) =~= out@ + replace_seq(s@.skip(i as int), pat@, rep@),
        decreases n - i,
    {
        let ghost rest = s@.skip(i as int);
        let hit = prefix_match(s, i, pat);
        if hit {
            proof {
                assert(rest.take(m as int) =~= s@.subrange(i as int, i as int + m as int));
                assert(rest.skip(m as int) =~= s@.skip(i as int + m as int));
                assert(replace_seq(rest, pat@, rep@) == rep@ + replace_seq(
                    s@.skip(i as int + m as int),
                    pat@,
                    rep@,
                ));
            }
            push_range(&mut out, rep, 0, rep.len());
            proof {
                assert(rep@.subrange(0, rep@.len() as int) =~= rep@);
                assert(replace_seq(s@, pat@, rep@) =~= out@ + replace_seq(
                    s@.skip(i as int + m as int),
                    pat@,
                    rep@,
                ));
            }
            i = i + m;
        } else {
            proof {
                if rest.len() >= m && rest.take(m as int) == pat@ {
                    assert(rest.take(m as int) =~= s@.subrange(i as int, i as int + m as int));
                }
                assert(rest[0] == s@[i as int]);
                assert(rest.skip(1) =~= s@.skip(i as int + 1));
                assert(replace_seq(rest, pat@, rep@) == seq![s@[i as int]] + replace_seq(
                    s@.skip(i as int + 1),
                    pat@,
                    rep@,
                ));
            }
            out.push(s[i]);
            i = i + 1;
            proof {
                assert(replace_seq(s@, pat@, rep@) =~= out@ + replace_seq(
                    s@.skip(i as int),
                    pat@,
                    rep@,
                ));
            }
        }
    }
    proof {
        assert(s@.skip(n as int) =~= Seq::<u8>::empty());
        assert(replace_seq(Seq::<u8>::empty(), pat@, rep@) == Seq::<u8>::empty());
        assert(out@ =~= replace_seq(s@, pat@, rep@));
    }
    out
}


/// Replacing every tab with a space leaves no tab behind: the detabulated
/// texts of an output line cannot break its column structure.
pub proof fn lemma_replace_tab_free(s: Seq<u8>)
    ensures
        forall|i: int|
            0 <= i < replace_seq(s, seq![9u8], seq![32u8]).len() ==> #[trigger] replace_seq(
                s,
                seq![9u8],
                seq![32u8],
            )[i] != 9u8,
    decreases s.len(),
{
    let pat = seq![9u8];
    let rep = seq![32u8];
    if s.len() > 0 {
        if s.take(1) == pat {
            lemma_replace_tab_free(s.skip(1));
            let r = rep + replace_seq(s.skip(1), pat, rep);
            assert forall|i: int| 0 <= i < r.len() implies #[trigger] r[i] != 9u8 by {
                if i >= 1 {
                    assert(r[i] == replace_seq(s.skip(1), pat, rep)[i - 1]);
                }
            }
        } else {
            assert(s[0] != 9u8) by {
                if s[0] == 9u8 {
                    assert(s.take(1) =~= pat);
                }
            }
            lemma_replace_tab_free(s.skip(1));
            let r = seq![s[0]] + replace_seq(s.skip(1), pat, rep);
            assert forall|i: int| 0 <= i < r.len() implies #[trigger] r[i] != 9u8 by {
                if i >= 1 {
                    assert(r[i] == replace_seq(s.skip(1), pat, rep)[i - 1]);
                }
            }
        }
    }
}
} // verus!
