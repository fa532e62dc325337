//! Byte-string searching and replacement.
//!
//! Origin URLs are treated as opaque byte strings; the only structure the
//! library reads out of them is the presence of a protocol marker
//! (`git://` or `https://`), which the resolver's fallback swaps for the
//! other one.  Replacement is leftmost and non-overlapping, replacing every
//! occurrence.

use vstd::prelude::*;

verus! {

/// True when `pat` occurs in `s` starting at position `i`.
pub open spec fn matches_at(s: Seq<u8>, pat: Seq<u8>, i: int) -> bool {
    &&& 0 <= i
    &&& i + pat.len() <= s.len()
    &&& s.subrange(i, i + pat.len()) == pat
}

/// True when `pat` occurs somewhere in `s`.
pub open spec fn contains_seq(s: Seq<u8>, pat: Seq<u8>) -> bool {
    exists|i: int| matches_at(s, pat, i)
}

/// `s` with every occurrence of `pat` replaced by `rep`, scanning left to
/// right and never rescanning replaced text.
pub open spec fn replace_seq(s: Seq<u8>, pat: Seq<u8>, rep: Seq<u8>) -> Seq<u8>
    decreases s.len(),
{
    if pat.len() == 0 || s.len() < pat.len() {
        s
    } else if matches_at(s, pat, 0) {
        rep + replace_seq(s.skip(pat.len() as int), pat, rep)
    } else {
        s.take(1) + replace_seq(s.skip(1), pat, rep)
    }
}

/// A match of `pat` inside `s` at position `i` is the same thing as a match
/// at the front of the suffix of `s` that starts at `i`.
proof fn lemma_matches_at_skip(s: Seq<u8>, pat: Seq<u8>, i: int)
    requires
        0 <= i <= s.len(),
    ensures
        matches_at(s, pat, i) == matches_at(s.skip(i), pat, 0),
{
    if i + pat.len() <= s.len() {
        assert(s.skip(i).subrange(0, pat.len() as int) =~= s.subrange(i, i + pat.len()));
    }
}

/// Reports whether `pat` occurs in `s` at position `i`.
pub fn match_at(s: &Vec<u8>, pat: &Vec<u8>, i: usize) -> (r: bool)
    requires
        i + pat@.len() <= s@.len(),
    ensures
        r == matches_at(s@, pat@, i as int),
{
    let n = s.len();
    let m = pat.len();
    let mut k: usize = 0;
    while k < m
        invariant
            n == s@.len(),
            m == pat@.len(),
            i + m <= n,
            0 <= k <= m,
            forall|j: int| 0 <= j < k ==> s@[i + j] == pat@[j],
        decreases m - k,
    {
        if s[i + k] != pat[k] {
            proof {
                if matches_at(s@, pat@, i as int) {
                    assert(s@.subrange(i as int, i + pat@.len())[k as int] == s@[i + k]);
                }
            }
            return false;
        }
        k += 1;
    }
    proof {
        assert(s@.subrange(i as int, i + pat@.len()) =~= pat@);
    }
    true
}

/// Reports whether `pat` occurs anywhere in `s`.
pub fn contains_bytes(s: &Vec<u8>, pat: &Vec<u8>) -> (r: bool)
    requires
        pat@.len() >= 1,
    ensures
        r == contains_seq(s@, pat@),
{
    if pat.len() > s.len() {
        proof {
            assert forall|i: int| !matches_at(s@, pat@, i) by {}
        }
        return false;
    }
    let n = s.len();
    let m = pat.len();
    let end = n - m;
    let mut i: usize = 0;
    while i <= end
        invariant
            n == s@.len(),
            m == pat@.len(),
            m >= 1,
            end + m == n,
            i <= end + 1,
            forall|j: int| 0 <= j < i ==> !matches_at(s@, pat@, j),
        decreases end + 1 - i,
    {
        if match_at(s, pat, i) {
            return true;
        }
        i += 1;
    }
    proof {
        assert forall|j: int| !matches_at(s@, pat@, j) by {
            if 0 <= j <= end {
                assert(!matches_at(s@, pat@, j));
            }
        }
    }
    false
}

/// Appends every byte of `src` to `dst`.
pub fn push_all(dst: &mut Vec<u8>, src: &Vec<u8>)
    ensures
        final(dst)@ == old(dst)@ + src@,
{
    let ghost dst0 = dst@;
    let mut k: usize = 0;
    while k < src.len()
        invariant
            0 <= k <= src@.len(),
            dst@ == dst0 + src@.take(k as int),
        decreases src@.len() - k,
    {
        dst.push(src[k]);
        proof {
            assert(dst0 + src@.take(k as int) + seq![src@[k as int]] =~= dst0 + src@.take(
                k + 1,
            ));
        }
        k += 1;
    }
    proof {
        assert(dst0 + src@.take(src@.len() as int) =~= dst0 + src@);
    }
}

/// Builds `s` with every occurrence of `pat` replaced by `rep`.
pub fn replace_bytes(s: &Vec<u8>, pat: &Vec<u8>, rep: &Vec<u8>) -> (r: Vec<u8>)
    requires
        pat@.len() >= 1,
    ensures
        r@ == replace_seq(s@, pat@, rep@),
{
    let n = s.len();
    let m = pat.len();
    let mut out: Vec<u8> = Vec::new();
    let mut i: usize = 0;
    proof {
        assert(s@.skip(0) =~= s@);
        assert(out@ + replace_seq(s@, pat@, rep@) =~= replace_seq(s@, pat@, rep@));
    }
    while i < n
        invariant
            n == s@.len(),
            m == pat@.len(),
            m >= 1,
            0 <= i <= n,
            out@ + replace_seq(s@.skip(i as int), pat@, rep@) == replace_seq(s@, pat@, rep@),
        decreases n - i,
    {
        let ghost suffix = s@.skip(i as int);
        let ghost out0 = out@;
        if n - i >= m && match_at(s, pat, i) {
            push_all(&mut out, rep);
            proof {
                lemma_matches_at_skip(s@, pat@, i as int);
                assert(suffix.skip(pat@.len() as int) =~= s@.skip(i + pat@.len()));
                assert(replace_seq(suffix, pat@, rep@) == rep@ + replace_seq(
                    s@.skip(i + pat@.len()),
                    pat@,
                    rep@,
                ));
                assert(out0 + (rep@ + replace_seq(s@.skip(i + pat@.len()), pat@, rep@)) =~= (out0
                    + rep@) + replace_seq(s@.skip(i + pat@.len()), pat@, rep@));
            }
            i = i + pat.len();
        } else {
            out.push(s[i]);
            proof {
                if suffix.len() < pat@.len() {
                    assert(replace_seq(suffix, pat@, rep@) == suffix);
                    assert(s@.skip(i + 1).len() < pat@.len());
                    assert(replace_seq(s@.skip(i + 1), pat@, rep@) == s@.skip(i + 1));
                    assert(out0 + suffix =~= (out0 + seq![s@[i as int]]) + s@.skip(i + 1));
                } else {
                    lemma_matches_at_skip(s@, pat@, i as int);
                    assert(!matches_at(suffix, pat@, 0));
                    assert(suffix.skip(1) =~= s@.skip(i + 1));
                    assert(replace_seq(suffix, pat@, rep@) == suffix.take(1) + replace_seq(
                        s@.skip(i + 1),
                        pat@,
                        rep@,
                    ));
                    assert(suffix.take(1) =~= seq![s@[i as int]]);
                    assert(out0 + (seq![s@[i as int]] + replace_seq(s@.skip(i + 1), pat@, rep@))
                        =~= (out0 + seq![s@[i as int]]) + replace_seq(s@.skip(i + 1), pat@, rep@));
                }
            }
            i = i + 1;
        }
    }
    proof {
        assert(s@.skip(i as int) =~= Seq::<u8>::empty());
        assert(replace_seq(Seq::<u8>::empty(), pat@, rep@) == Seq::<u8>::empty());
        assert(out@ + Seq::<u8>::empty() =~= out@);
    }
    out
}

/// The bytes of `git://`.
pub open spec fn git_marker() -> Seq<u8> {
    seq![103u8, 105u8, 116u8, 58u8, 47u8, 47u8]
}

/// The bytes of `https://`.
pub open spec fn https_marker() -> Seq<u8> {
    seq![104u8, 116u8, 116u8, 112u8, 115u8, 58u8, 47u8, 47u8]
}

/// Builds the bytes of `git://`.
pub fn git_marker_bytes() -> (r: Vec<u8>)
    ensures
        r@ == git_marker(),
{
    let mut v: Vec<u8> = Vec::new();
    v.push(103u8);
    v.push(105u8);
    v.push(116u8);
    v.push(58u8);
    v.push(47u8);
    v.push(47u8);
    proof {
        assert(v@ =~= git_marker());
    }
    v
}

/// Builds the bytes of `https://`.
pub fn https_marker_bytes() -> (r: Vec<u8>)
    ensures
        r@ == https_marker(),
{
    let mut v: Vec<u8> = Vec::new();
    v.push(104u8);
    v.push(116u8);
    v.push(116u8);
    v.push(112u8);
    v.push(115u8);
    v.push(58u8);
    v.push(47u8);
    v.push(47u8);
    proof {
        assert(v@ =~= https_marker());
    }
    v
}

/// A URL carries a protocol the fallback knows how to swap.
pub open spec fn has_protocol_marker(url: Seq<u8>) -> bool {
    contains_seq(url, git_marker()) || contains_seq(url, https_marker())
}

/// The protocol-swapped form of `url`: `git://` becomes `https://` when
/// present (checked first), otherwise `https://` becomes `git://`; a URL
/// with neither marker is returned unchanged.
pub open spec fn alternative_url(url: Seq<u8>) -> Seq<u8> {
    if contains_seq(url, git_marker()) {
        replace_seq(url, git_marker(), https_marker())
    } else if contains_seq(url, https_marker()) {
        replace_seq(url, https_marker(), git_marker())
    } else {
        url
    }
}

/// Builds the protocol-swapped form of `url`.
pub fn alternative_url_bytes(url: &Vec<u8>) -> (r: Vec<u8>)
    ensures
        r@ == alternative_url(url@),
{
    let git = git_marker_bytes();
    let https = https_marker_bytes();
    if contains_bytes(url, &git) {
        replace_bytes(url, &git, &https)
    } else if contains_bytes(url, &https) {
        replace_bytes(url, &https, &git)
    } else {
        let mut copy: Vec<u8> = Vec::new();
        push_all(&mut copy, url);
        proof {
            assert(Seq::<u8>::empty() + url@ =~= url@);
        }
        copy
    }
}

} // verus!
