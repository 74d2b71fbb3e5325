//! Text as sequences of characters: conversion from and to strings, search,
//! splitting at a delimiter and joining with one, prefixes, suffixes and
//! surrounding white space.

use vstd::prelude::*;

verus! {

/// `String::push` of the standard library appends one character to the text.
pub assume_specification[ String::push ](text: &mut String, c: char)
    ensures
        final(text)@ == old(text)@.push(c),
;

/// The index of the first `c` in `s`, or the length of `s` where it holds none.
pub open spec fn position(s: Seq<char>, c: char) -> int
    decreases s.len(),
{
    if s.len() == 0 {
        0
    } else if s[0] == c {
        0
    } else {
        1 + position(s.drop_first(), c)
    }
}

/// Where `c` first occurs in `s`: `r` is its position if nothing before `r`
/// is `c`, and `r` is the end of `s` or holds `c`.
pub proof fn lemma_position(s: Seq<char>, c: char, r: int)
    requires
        0 <= r <= s.len(),
        forall|i: int| 0 <= i < r ==> s[i] != c,
        r < s.len() ==> s[r] == c,
    ensures
        position(s, c) == r,
    decreases s.len(),
{
    if s.len() > 0 && r > 0 {
        lemma_position(s.drop_first(), c, r - 1);
    }
}

/// The parts of `s` between occurrences of `sep`. There is one part more than
/// `s` holds separators; a part may be empty, and so may `s`.
pub open spec fn split(s: Seq<char>, sep: char) -> Seq<Seq<char>>
    decreases s.len(),
{
    let p = position(s, sep);
    if 0 <= p < s.len() {
        seq![s.take(p)] + split(s.skip(p + 1), sep)
    } else {
        seq![s]
    }
}

/// The parts in order with `sep` between each two; empty for no parts.
pub open spec fn join(parts: Seq<Seq<char>>, sep: char) -> Seq<char>
    decreases parts.len(),
{
    if parts.len() == 0 {
        Seq::empty()
    } else if parts.len() == 1 {
        parts[0]
    } else {
        parts[0] + seq![sep] + join(parts.drop_first(), sep)
    }
}

/// Whether `c` does not occur in `s`.
pub open spec fn free_of(s: Seq<char>, c: char) -> bool {
    forall|i: int| 0 <= i < s.len() ==> s[i] != c
}

/// Whether `s` begins with `p`.
pub open spec fn has_prefix(s: Seq<char>, p: Seq<char>) -> bool {
    p.len() <= s.len() && s.take(p.len() as int) == p
}

/// Whether `s` ends with `p`.
pub open spec fn has_suffix(s: Seq<char>, p: Seq<char>) -> bool {
    p.len() <= s.len() && s.skip(s.len() - p.len()) == p
}

/// Whether `c` is white space: a character with the Unicode property
/// `White_Space`.
pub open spec fn is_space(c: char) -> bool {
    let code = c as int;
    ||| 0x09 <= code <= 0x0d
    ||| code == 0x20
    ||| code == 0x85
    ||| code == 0xa0
    ||| code == 0x1680
    ||| 0x2000 <= code <= 0x200a
    ||| code == 0x2028
    ||| code == 0x2029
    ||| code == 0x202f
    ||| code == 0x205f
    ||| code == 0x3000
}

/// `s` without the white space it begins with.
pub open spec fn trim_start(s: Seq<char>) -> Seq<char>
    decreases s.len(),
{
    if s.len() > 0 && is_space(s[0]) {
        trim_start(s.drop_first())
    } else {
        s
    }
}

/// `s` without the white space it ends with.
pub open spec fn trim_end(s: Seq<char>) -> Seq<char>
    decreases s.len(),
{
    if s.len() > 0 && is_space(s.last()) {
        trim_end(s.drop_last())
    } else {
        s
    }
}

/// `s` without the white space around it.
pub open spec fn trim(s: Seq<char>) -> Seq<char> {
    trim_end(trim_start(s))
}

/// The texts that a sequence of strings holds.
pub open spec fn texts(v: Seq<String>) -> Seq<Seq<char>> {
    Seq::new(v.len(), |i: int| v[i]@)
}

/// Splitting what was joined gives the parts back, where there is at least one
/// part and none of them holds the separator.
pub proof fn lemma_split_join(parts: Seq<Seq<char>>, sep: char)
    requires
        parts.len() > 0,
        forall|i: int| 0 <= i < parts.len() ==> free_of(#[trigger] parts[i], sep),
    ensures
        split(join(parts, sep), sep) == parts,
    decreases parts.len(),
{
    let s = join(parts, sep);
    let head = parts[0];
    assert(free_of(head, sep));
    if parts.len() == 1 {
        lemma_position(s, sep, s.len() as int);
        assert(split(s, sep) =~= parts);
    } else {
        let rest = parts.drop_first();
        assert forall|i: int| 0 <= i < rest.len() implies free_of(#[trigger] rest[i], sep) by {
            assert(rest[i] == parts[i + 1]);
        }
        lemma_split_join(rest, sep);
        lemma_position(s, sep, head.len() as int);
        assert(s.take(head.len() as int) =~= head);
        assert(s.skip(head.len() as int + 1) =~= join(rest, sep));
        assert(split(s, sep) =~= parts);
    }
}

/// Joining one part more appends it, after the separator where parts came
/// before it.
pub proof fn lemma_join_push(parts: Seq<Seq<char>>, last: Seq<char>, sep: char)
    ensures
        join(parts.push(last), sep) == if parts.len() == 0 {
            last
        } else {
            join(parts, sep) + seq![sep] + last
        },
    decreases parts.len(),
{
    let all = parts.push(last);
    if parts.len() > 0 {
        assert(all.drop_first() =~= parts.drop_first().push(last));
        lemma_join_push(parts.drop_first(), last, sep);
        assert(join(all, sep) =~= join(parts, sep) + seq![sep] + last);
    }
}

/// What is joined ends as its last part ends, where that part is not empty.
pub proof fn lemma_join_last(parts: Seq<Seq<char>>, sep: char)
    requires
        parts.len() > 0,
        parts.last().len() > 0,
    ensures
        join(parts, sep).len() > 0,
        join(parts, sep).last() == parts.last().last(),
    decreases parts.len(),
{
    if parts.len() > 1 {
        let rest = parts.drop_first();
        assert(rest.last() == parts.last());
        lemma_join_last(rest, sep);
    }
}

/// What is joined holds a character only where a part or the separator does.
pub proof fn lemma_join_free(parts: Seq<Seq<char>>, sep: char, c: char)
    requires
        sep != c,
        forall|i: int| 0 <= i < parts.len() ==> free_of(#[trigger] parts[i], c),
    ensures
        free_of(join(parts, sep), c),
    decreases parts.len(),
{
    if parts.len() == 1 {
        assert(free_of(parts[0], c));
    } else if parts.len() > 1 {
        let rest = parts.drop_first();
        assert forall|i: int| 0 <= i < rest.len() implies free_of(#[trigger] rest[i], c) by {
            assert(rest[i] == parts[i + 1]);
        }
        lemma_join_free(rest, sep, c);
        assert(free_of(parts[0], c));
    }
}

/// The characters of `s`, one by one.
pub fn chars_of(s: &str) -> (v: Vec<char>)
    ensures
        v@ == s@,
{
    let mut v: Vec<char> = Vec::new();
    for c in it: s.chars()
        invariant
            it.seq() == s@,
            v@ == s@.take(it.index()),
    {
        v.push(c);
    }
    assert(s@.take(s@.len() as int) == s@);
    v
}

/// Appends the characters of `v` from `lo` up to `hi` to `out`.
pub fn push_chars(out: &mut String, v: &Vec<char>, lo: usize, hi: usize)
    requires
        lo <= hi <= v.len(),
    ensures
        final(out)@ == old(out)@ + v@.subrange(lo as int, hi as int),
{
    let mut i = lo;
    assert(v@.subrange(lo as int, lo as int) =~= Seq::<char>::empty());
    while i < hi
        invariant
            lo <= i <= hi <= v.len(),
            out@ == old(out)@ + v@.subrange(lo as int, i as int),
        decreases hi - i,
    {
        out.push(v[i]);
        assert(v@.subrange(lo as int, i + 1) =~= v@.subrange(lo as int, i as int).push(v@[i as int]));
        i = i + 1;
    }
}

/// A string of the characters of `v` from `lo` up to `hi`.
pub fn string_of(v: &Vec<char>, lo: usize, hi: usize) -> (s: String)
    requires
        lo <= hi <= v.len(),
    ensures
        s@ == v@.subrange(lo as int, hi as int),
{
    let mut s = String::new();
    push_chars(&mut s, v, lo, hi);
    s
}

/// The index of the first `c` in `v` from `lo` up to `hi`, or `hi` where there
/// is none.
pub fn find(v: &Vec<char>, lo: usize, hi: usize, c: char) -> (r: usize)
    requires
        lo <= hi <= v.len(),
    ensures
        lo <= r <= hi,
        r - lo == position(v@.subrange(lo as int, hi as int), c),
{
    let mut i = lo;
    while i < hi && v[i] != c
        invariant
            lo <= i <= hi <= v.len(),
            forall|j: int| lo <= j < i ==> v@[j] != c,
        decreases hi - i,
    {
        i = i + 1;
    }
    proof {
        lemma_position(v@.subrange(lo as int, hi as int), c, i - lo);
    }
    i
}

/// Whether `c` is white space.
pub fn space(c: char) -> (r: bool)
    ensures
        r == is_space(c),
{
    let code = c as u32;
    (0x09 <= code && code <= 0x0d) || code == 0x20 || code == 0x85 || code == 0xa0 || code
        == 0x1680 || (0x2000 <= code && code <= 0x200a) || code == 0x2028 || code == 0x2029
        || code == 0x202f || code == 0x205f || code == 0x3000
}

/// The bounds of each part of `v` between occurrences of `sep`, in order: where
/// the part begins, and where it ends.
pub fn split_bounds(v: &Vec<char>, sep: char) -> (bounds: Vec<(usize, usize)>)
    ensures
        bounds.len() == split(v@, sep).len(),
        forall|k: int|
            0 <= k < bounds.len() ==> (#[trigger] bounds[k]).0 <= bounds[k].1 <= v.len(),
        forall|k: int|
            0 <= k < bounds.len() ==> v@.subrange(
                (#[trigger] bounds[k]).0 as int,
                bounds[k].1 as int,
            ) == split(v@, sep)[k],
{
    let mut bounds: Vec<(usize, usize)> = Vec::new();
    let mut start: usize = 0;
    let ghost mut done: Seq<Seq<char>> = Seq::empty();
    assert(v@.skip(0) =~= v@);
    loop
        invariant_except_break
            split(v@, sep) == done + split(v@.skip(start as int), sep),
        invariant
            start <= v.len(),
            done.len() == bounds.len(),
            forall|k: int|
                0 <= k < bounds.len() ==> (#[trigger] bounds[k]).0 <= bounds[k].1 <= v.len(),
            forall|k: int|
                0 <= k < bounds.len() ==> v@.subrange(
                    (#[trigger] bounds[k]).0 as int,
                    bounds[k].1 as int,
                ) == done[k],
        ensures
            done.len() == bounds.len(),
            forall|k: int|
                0 <= k < bounds.len() ==> (#[trigger] bounds[k]).0 <= bounds[k].1 <= v.len(),
            forall|k: int|
                0 <= k < bounds.len() ==> v@.subrange(
                    (#[trigger] bounds[k]).0 as int,
                    bounds[k].1 as int,
                ) == done[k],
            split(v@, sep) == done,
        decreases v.len() - start,
    {
        let end = find(v, start, v.len(), sep);
        let ghost tail = v@.skip(start as int);
        let ghost part = v@.subrange(start as int, end as int);
        assert(v@.subrange(start as int, v.len() as int) =~= tail);
        assert(tail.take(end - start) =~= part);
        bounds.push((start, end));
        if end == v.len() {
            proof {
                assert(tail =~= part);
                assert(done + split(tail, sep) =~= done.push(part));
                done = done.push(part);
            }
            break ;
        }
        proof {
            assert(tail.skip(end - start + 1) =~= v@.skip(end + 1));
            assert(done + split(tail, sep) =~= done.push(part) + split(v@.skip(end + 1), sep));
            done = done.push(part);
        }
        start = end + 1;
    }
    bounds
}

/// Whether the characters of `v` from `lo` up to `hi` begin with `p`.
pub fn starts_with(v: &Vec<char>, lo: usize, hi: usize, p: &Vec<char>) -> (r: bool)
    requires
        lo <= hi <= v.len(),
    ensures
        r == has_prefix(v@.subrange(lo as int, hi as int), p@),
{
    let ghost s = v@.subrange(lo as int, hi as int);
    if p.len() > hi - lo {
        return false;
    }
    let mut i: usize = 0;
    while i < p.len()
        invariant
            i <= p.len() <= hi - lo,
            lo <= hi <= v.len(),
            s == v@.subrange(lo as int, hi as int),
            forall|j: int| 0 <= j < i ==> s[j] == p@[j],
        decreases p.len() - i,
    {
        if v[lo + i] != p[i] {
            assert(s.take(p.len() as int)[i as int] != p@[i as int]);
            return false;
        }
        i = i + 1;
    }
    assert(s.take(p.len() as int) =~= p@);
    true
}

/// Whether the characters of `v` from `lo` up to `hi` end with `p`.
pub fn ends_with(v: &Vec<char>, lo: usize, hi: usize, p: &Vec<char>) -> (r: bool)
    requires
        lo <= hi <= v.len(),
    ensures
        r == has_suffix(v@.subrange(lo as int, hi as int), p@),
{
    let ghost s = v@.subrange(lo as int, hi as int);
    if p.len() > hi - lo {
        return false;
    }
    let from = hi - p.len();
    let mut i: usize = 0;
    while i < p.len()
        invariant
            i <= p.len() <= hi - lo,
            lo <= from <= hi <= v.len(),
            from == hi - p.len(),
            s == v@.subrange(lo as int, hi as int),
            forall|j: int| 0 <= j < i ==> s[from - lo + j] == p@[j],
        decreases p.len() - i,
    {
        if v[from + i] != p[i] {
            assert(s.skip(s.len() - p.len())[i as int] != p@[i as int]);
            return false;
        }
        i = i + 1;
    }
    assert(s.skip(s.len() - p.len()) =~= p@);
    true
}

/// The bounds of what is left of the characters of `v` from `lo` up to `hi`
/// when the white space around them is taken away.
pub fn trim_bounds(v: &Vec<char>, lo: usize, hi: usize) -> (r: (usize, usize))
    requires
        lo <= hi <= v.len(),
    ensures
        lo <= r.0 <= r.1 <= hi,
        v@.subrange(r.0 as int, r.1 as int) == trim(v@.subrange(lo as int, hi as int)),
{
    let mut a = lo;
    while a < hi && space(v[a])
        invariant
            lo <= a <= hi <= v.len(),
            trim_start(v@.subrange(lo as int, hi as int)) == trim_start(
                v@.subrange(a as int, hi as int),
            ),
        decreases hi - a,
    {
        assert(v@.subrange(a as int, hi as int).drop_first() =~= v@.subrange(a + 1, hi as int));
        a = a + 1;
    }
    let mut b = hi;
    while a < b && space(v[b - 1])
        invariant
            a <= b <= hi <= v.len(),
            trim_end(v@.subrange(a as int, hi as int)) == trim_end(
                v@.subrange(a as int, b as int),
            ),
        decreases b - a,
    {
        assert(v@.subrange(a as int, b as int).drop_last() =~= v@.subrange(a as int, b - 1));
        b = b - 1;
    }
    (a, b)
}

} // verus!
