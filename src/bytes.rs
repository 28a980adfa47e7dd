//! Byte-level helpers shared by the parser and the serializer.

use vstd::prelude::*;

verus! {

/// `s[i..i + 2]` is the line terminator `\r\n`.
pub open spec fn crlf_at(s: Seq<u8>, i: int) -> bool {
    0 <= i && i + 1 < s.len() && s[i] == 13u8 && s[i + 1] == 10u8
}

/// The first line terminator in `s` that starts at or after `i`.
pub open spec fn find_crlf(s: Seq<u8>, i: int) -> Option<int>
    decreases s.len() - i,
{
    if i < 0 || i + 1 >= s.len() {
        None
    } else if crlf_at(s, i) {
        Some(i)
    } else {
        find_crlf(s, i + 1)
    }
}

/// The first occurrence of byte `b` in `s` at or after `i`.
pub open spec fn find_byte(s: Seq<u8>, b: u8, i: int) -> Option<int>
    decreases s.len() - i,
{
    if i < 0 || i >= s.len() {
        None
    } else if s[i] == b {
        Some(i)
    } else {
        find_byte(s, b, i + 1)
    }
}

pub proof fn lemma_find_crlf_bounds(s: Seq<u8>, i: int)
    ensures
        find_crlf(s, i) matches Some(j) ==> i <= j && crlf_at(s, j),
    decreases s.len() - i,
{
    if !(i < 0 || i + 1 >= s.len()) && !crlf_at(s, i) {
        lemma_find_crlf_bounds(s, i + 1);
    }
}

pub proof fn lemma_find_byte_bounds(s: Seq<u8>, b: u8, i: int)
    ensures
        find_byte(s, b, i) matches Some(j) ==> i <= j < s.len() && s[j] == b,
    decreases s.len() - i,
{
    if !(i < 0 || i >= s.len()) && s[i] != b {
        lemma_find_byte_bounds(s, b, i + 1);
    }
}

/// Position of the first `\r\n` of `s` at or after `from`.
pub fn find_crlf_from(s: &[u8], from: usize) -> (r: Option<usize>)
    requires
        from <= s@.len(),
    ensures
        match r {
            Some(j) => find_crlf(s@, from as int) == Some(j as int) && from <= j && crlf_at(
                s@,
                j as int,
            ),
            None => find_crlf(s@, from as int) is None,
        },
{
    proof {
        lemma_find_crlf_bounds(s@, from as int);
    }
    let mut i: usize = from;
    while i < s.len() && i + 1 < s.len()
        invariant
            from <= i <= s@.len(),
            find_crlf(s@, from as int) == find_crlf(s@, i as int),
        decreases s@.len() - i,
    {
        if s[i] == 13u8 && s[i + 1] == 10u8 {
            return Some(i);
        }
        i = i + 1;
    }
    None
}

/// Position of the first byte `b` of `s` at or after `from`.
pub fn find_byte_from(s: &[u8], b: u8, from: usize) -> (r: Option<usize>)
    requires
        from <= s@.len(),
    ensures
        match r {
            Some(j) => find_byte(s@, b, from as int) == Some(j as int) && from <= j < s@.len()
                && s@[j as int] == b,
            None => find_byte(s@, b, from as int) is None,
        },
{
    proof {
        lemma_find_byte_bounds(s@, b, from as int);
    }
    let mut i: usize = from;
    while i < s.len()
        invariant
            from <= i <= s@.len(),
            find_byte(s@, b, from as int) == find_byte(s@, b, i as int),
        decreases s@.len() - i,
    {
        if s[i] == b {
            return Some(i);
        }
        i = i + 1;
    }
    None
}

/// A fresh vector holding `s[a..b]`.
pub fn copy_range(s: &[u8], a: usize, b: usize) -> (r: Vec<u8>)
    requires
        a <= b <= s@.len(),
    ensures
        r@ == s@.subrange(a as int, b as int),
{
    let mut r: Vec<u8> = Vec::new();
    let mut i: usize = a;
    while i < b
        invariant
            a <= i <= b <= s@.len(),
            r@ == s@.subrange(a as int, i as int),
        decreases b - i,
    {
        r.push(s[i]);
        i = i + 1;
    }
    assert(r@ =~= s@.subrange(a as int, b as int));
    r
}

/// Appends all of `src` to `dst`.
pub fn append_bytes(dst: &mut Vec<u8>, src: &[u8])
    ensures
        final(dst)@ == old(dst)@ + src@,
{
    let mut i: usize = 0;
    while i < src.len()
        invariant
            i <= src@.len(),
            dst@ == old(dst)@ + src@.subrange(0, i as int),
        decreases src@.len() - i,
    {
        dst.push(src[i]);
        i = i + 1;
    }
    assert(src@.subrange(0, src@.len() as int) =~= src@);
}

/// Appends `s[a..b]` to `dst`.
pub fn append_range(dst: &mut Vec<u8>, s: &[u8], a: usize, b: usize)
    requires
        a <= b <= s@.len(),
    ensures
        final(dst)@ == old(dst)@ + s@.subrange(a as int, b as int),
{
    let mut i: usize = a;
    while i < b
        invariant
            a <= i <= b <= s@.len(),
            dst@ == old(dst)@ + s@.subrange(a as int, i as int),
        decreases b - i,
    {
        dst.push(s[i]);
        i = i + 1;
        assert(dst@ =~= old(dst)@ + s@.subrange(a as int, i as int));
    }
}

} // verus!
