use vstd::prelude::*;

verus! {

/// `needle` occurs in `haystack` starting at `k`.
pub open spec fn occurs_at(haystack: Seq<u8>, needle: Seq<u8>, k: int) -> bool {
    0 <= k && k + needle.len() <= haystack.len() && haystack.subrange(k, k + needle.len())
        == needle
}

/// The first position at or after `k` where `needle` occurs in `haystack`.
pub open spec fn find_from(haystack: Seq<u8>, needle: Seq<u8>, k: int) -> Option<int>
    decreases haystack.len() + 1 - k,
{
    if k < 0 || k + needle.len() > haystack.len() {
        None
    } else if occurs_at(haystack, needle, k) {
        Some(k)
    } else {
        find_from(haystack, needle, k + 1)
    }
}

/// The first position where `needle` occurs in `haystack`.
pub open spec fn find_sub(haystack: Seq<u8>, needle: Seq<u8>) -> Option<int> {
    find_from(haystack, needle, 0)
}

/// What `find_from` returns: the first occurrence at or after `k`, if there is one.
pub proof fn lemma_find_from(haystack: Seq<u8>, needle: Seq<u8>, k: int)
    requires
        0 <= k,
    ensures
        match find_from(haystack, needle, k) {
            Some(p) => k <= p && occurs_at(haystack, needle, p) && p + needle.len()
                <= haystack.len() && forall|j: int|
                k <= j < p ==> !occurs_at(haystack, needle, j),
            None => forall|j: int| k <= j ==> !occurs_at(haystack, needle, j),
        },
    decreases haystack.len() + 1 - k,
{
    if k + needle.len() > haystack.len() {
    } else if occurs_at(haystack, needle, k) {
    } else {
        lemma_find_from(haystack, needle, k + 1);
    }
}

/// What `find_sub` returns: the first occurrence, if there is one.
pub proof fn lemma_find_sub(haystack: Seq<u8>, needle: Seq<u8>)
    ensures
        match find_sub(haystack, needle) {
            Some(p) => 0 <= p && p + needle.len() <= haystack.len() && occurs_at(
                haystack,
                needle,
                p,
            ) && forall|j: int| 0 <= j < p ==> !occurs_at(haystack, needle, j),
            None => forall|j: int| !occurs_at(haystack, needle, j),
        },
{
    lemma_find_from(haystack, needle, 0);
}

/// The position of the first occurrence of `needle` in `haystack`.
pub fn find_subsequence(haystack: &[u8], needle: &[u8]) -> (r: Option<usize>)
    requires
        needle@.len() > 0,
    ensures
        match r {
            Some(p) => find_sub(haystack@, needle@) == Some(p as int),
            None => find_sub(haystack@, needle@) is None,
        },
        match r {
            Some(p) => occurs_at(haystack@, needle@, p as int) && forall|j: int|
                0 <= j < p ==> !occurs_at(haystack@, needle@, j),
            None => forall|j: int| !occurs_at(haystack@, needle@, j),
        },
{
    proof {
        lemma_find_sub(haystack@, needle@);
    }
    let n = needle.len();
    let h = haystack.len();
    if n > h {
        return None;
    }
    let mut k: usize = 0;
    while k <= h - n
        invariant
            n == needle@.len(),
            h == haystack@.len(),
            n <= h,
            k <= h - n + 1,
            find_sub(haystack@, needle@) == find_from(haystack@, needle@, k as int),
        decreases h - k,
    {
        let mut j: usize = 0;
        let mut same = true;
        while j < n
            invariant
                n == needle@.len(),
                h == haystack@.len(),
                k + n <= h,
                j <= n,
                same == (forall|t: int| 0 <= t < j ==> haystack@[k + t] == needle@[t]),
            decreases n - j,
        {
            if haystack[k + j] != needle[j] {
                same = false;
            }
            j += 1;
        }
        if same {
            assert(haystack@.subrange(k as int, k + n) =~= needle@);
            proof {
                lemma_find_sub(haystack@, needle@);
            }
            return Some(k);
        }
        assert(haystack@.subrange(k as int, k + n) != needle@) by {
            let t = choose|t: int| 0 <= t < n && haystack@[k + t] != needle@[t];
            assert(haystack@.subrange(k as int, k + n)[t] == haystack@[k + t]);
        }
        k += 1;
    }
    proof {
        lemma_find_sub(haystack@, needle@);
    }
    None
}

/// Appends `src[a..b]` to `out`.
pub fn append_range(out: &mut Vec<u8>, src: &[u8], a: usize, b: usize)
    requires
        a <= b <= src@.len(),
    ensures
        final(out)@ == old(out)@ + src@.subrange(a as int, b as int),
{
    let mut k: usize = a;
    while k < b
        invariant
            a <= k <= b <= src@.len(),
            out@ == old(out)@ + src@.subrange(a as int, k as int),
        decreases b - k,
    {
        out.push(src[k]);
        k += 1;
        assert(src@.subrange(a as int, k as int) =~= src@.subrange(a as int, k - 1 as int).push(
            src@[k - 1],
        ));
    }
}

/// `src[a..]` as a new vector.
pub fn copy_from(src: &[u8], a: usize) -> (v: Vec<u8>)
    requires
        a <= src@.len(),
    ensures
        v@ == src@.skip(a as int),
{
    let mut v: Vec<u8> = Vec::new();
    append_range(&mut v, src, a, src.len());
    assert(v@ =~= src@.skip(a as int));
    v
}

} // verus!
