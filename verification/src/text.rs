//! Character-level text operations shared by the calendar parser and the
//! renderer: conversion between strings and character vectors, searching,
//! pattern replacement, joining and decimal formatting.
use vstd::prelude::*;

verus! {

// ---------------------------------------------------------------------------
// Specifications
// ---------------------------------------------------------------------------

/// Index of the first `c` at or after `i`, or `s.len()` when there is none.
pub open spec fn find_from(s: Seq<char>, c: char, i: int) -> int
    decreases s.len() - i,
{
    if i >= s.len() {
        s.len() as int
    } else if s[i] == c {
        i
    } else {
        find_from(s, c, i + 1)
    }
}

/// `p` occurs in `s` starting at index `i`.
pub open spec fn occurs_at(s: Seq<char>, i: int, p: Seq<char>) -> bool {
    0 <= i && i + p.len() <= s.len() && s.subrange(i, i + p.len()) == p
}

/// `s` with every non-overlapping occurrence of `p` at or after `i`, taken
/// from the left, replaced by `r`; the part of `s` before `i` is dropped.
pub open spec fn replace_from(s: Seq<char>, p: Seq<char>, r: Seq<char>, i: int) -> Seq<char>
    decreases s.len() - i,
{
    if i < 0 || i >= s.len() {
        Seq::empty()
    } else if p.len() > 0 && occurs_at(s, i, p) {
        r + replace_from(s, p, r, i + p.len())
    } else {
        seq![s[i]] + replace_from(s, p, r, i + 1)
    }
}

/// `s` with every non-overlapping occurrence of `p`, taken from the left,
/// replaced by `r` (what `str::replace` computes for a non-empty pattern).
pub open spec fn replace_all(s: Seq<char>, p: Seq<char>, r: Seq<char>) -> Seq<char> {
    replace_from(s, p, r, 0)
}

/// The elements of `parts` with `sep` between each neighbouring pair.
pub open spec fn join(parts: Seq<Seq<char>>, sep: Seq<char>) -> Seq<char>
    decreases parts.len(),
{
    if parts.len() == 0 {
        Seq::empty()
    } else if parts.len() == 1 {
        parts[0]
    } else {
        join(parts.drop_last(), sep) + sep + parts.last()
    }
}

/// The decimal digit character for `d` (`0 <= d < 10`).
pub open spec fn digit_char(d: int) -> char {
    ((d + 48) as u8) as char
}

/// The decimal digits of a natural number, most significant first, without
/// leading zeros ("0" for zero).
pub open spec fn decimal_digits(n: nat) -> Seq<char>
    decreases n,
{
    if n < 10 {
        seq![digit_char(n as int)]
    } else {
        decimal_digits(n / 10) + seq![digit_char((n % 10) as int)]
    }
}

/// The decimal representation of an integer, with a leading `-` when it is
/// negative (what `Display` prints for Rust's integer types).
pub open spec fn decimal(n: int) -> Seq<char> {
    if n < 0 {
        seq!['-'] + decimal_digits((-n) as nat)
    } else {
        decimal_digits(n as nat)
    }
}

/// `p` occurs somewhere in `s`.
pub open spec fn contains(s: Seq<char>, p: Seq<char>) -> bool {
    exists|i: int| occurs_at(s, i, p)
}

/// `s` without the run of `c` at its end.
pub open spec fn trim_end_char(s: Seq<char>, c: char) -> Seq<char>
    decreases s.len(),
{
    if s.len() > 0 && s.last() == c {
        trim_end_char(s.drop_last(), c)
    } else {
        s
    }
}

/// `c` occurs somewhere in `s`.
pub open spec fn has_char(s: Seq<char>, c: char) -> bool {
    exists|i: int| 0 <= i < s.len() && s[i] == c
}

// ---------------------------------------------------------------------------
// Lemmas
// ---------------------------------------------------------------------------

/// A search from `i` that finds nothing in `s[i..]` ends at `s.len()`, and one
/// that finds something ends at the first occurrence.
pub proof fn lemma_find_from_char(s: Seq<char>, c: char, i: int)
    requires
        0 <= i <= s.len(),
    ensures
        i <= find_from(s, c, i) <= s.len(),
        find_from(s, c, i) < s.len() ==> s[find_from(s, c, i)] == c,
        forall|j: int| i <= j < find_from(s, c, i) ==> s[j] != c,
        (forall|j: int| i <= j < s.len() ==> s[j] != c) ==> find_from(s, c, i) == s.len(),
    decreases s.len() - i,
{
    if i < s.len() && s[i] != c {
        lemma_find_from_char(s, c, i + 1);
    }
}

/// Replacing in a text in which the pattern never occurs changes nothing.
pub proof fn lemma_replace_from_absent(s: Seq<char>, p: Seq<char>, r: Seq<char>, i: int)
    requires
        0 <= i <= s.len(),
        forall|j: int| i <= j < s.len() ==> !occurs_at(s, j, p),
    ensures
        replace_from(s, p, r, i) == s.subrange(i, s.len() as int),
    decreases s.len() - i,
{
    if i < s.len() {
        lemma_replace_from_absent(s, p, r, i + 1);
        assert(s.subrange(i, s.len() as int) =~= seq![s[i]] + s.subrange(i + 1, s.len() as int));
    } else {
        assert(s.subrange(i, s.len() as int) =~= Seq::<char>::empty());
    }
}

/// For a one-character pattern, replacing from `i + 1` is replacing in the
/// text without its first `i + 1` characters.
pub proof fn lemma_replace_char_shift(s: Seq<char>, c: char, r: Seq<char>, i: int)
    requires
        0 <= i,
    ensures
        i < s.len() ==> replace_from(s, seq![c], r, i) == (if s[i] == c {
            r
        } else {
            seq![s[i]]
        }) + replace_from(s, seq![c], r, i + 1),
        i < s.len() ==> replace_from(s, seq![c], r, i + 1) == replace_all(
            s.skip(i + 1),
            seq![c],
            r,
        ),
    decreases s.len() - i,
{
    if i < s.len() {
        assert(occurs_at(s, i, seq![c]) <==> s[i] == c) by {
            if s[i] == c {
                assert(s.subrange(i, i + 1) =~= seq![c]);
            }
            if occurs_at(s, i, seq![c]) {
                assert(s.subrange(i, i + 1)[0] == s[i]);
            }
        }
    }
    lemma_replace_from_skip(s, seq![c], r, i + 1, 0);
}

/// Replacing from index `i + k` of `s` equals replacing from index `k` of the
/// text without its first `i` characters.
pub proof fn lemma_replace_from_skip(s: Seq<char>, p: Seq<char>, r: Seq<char>, i: int, k: int)
    requires
        0 <= i,
        0 <= k,
    ensures
        replace_from(s, p, r, i + k) == replace_from(s.skip(i), p, r, k) || i > s.len(),
    decreases s.len() - (i + k),
{
    if i <= s.len() {
        let t = s.skip(i);
        if i + k < s.len() {
            assert(t[k] == s[i + k]);
            assert(occurs_at(s, i + k, p) == occurs_at(t, k, p)) by {
                if i + k + p.len() <= s.len() {
                    assert(s.subrange(i + k, i + k + p.len()) =~= t.subrange(k, k + p.len()));
                }
            }
            if p.len() > 0 && occurs_at(s, i + k, p) {
                lemma_replace_from_skip(s, p, r, i, k + p.len());
            } else {
                lemma_replace_from_skip(s, p, r, i, k + 1);
            }
        }
    }
}

/// The text made of the chunk `f(c)` of each character `c` of `s`, in
/// order.
pub open spec fn chunks(f: spec_fn(char) -> Seq<char>, s: Seq<char>) -> Seq<char>
    decreases s.len(),
{
    if s.len() == 0 {
        Seq::empty()
    } else {
        f(s[0]) + chunks(f, s.skip(1))
    }
}

/// No occurrence of `p` can start inside `t`, whatever follows `t`: each
/// character of `t` differs from the first of `p`, or is followed inside `t`
/// by a character that differs from the second of `p`.
pub open spec fn no_start_inside(t: Seq<char>, p: Seq<char>) -> bool {
    forall|j: int|
        0 <= j < t.len() ==> #[trigger] t[j] != p[0] || (j + 1 < t.len() && p.len() > 1 && t[j + 1]
            != p[1])
}

/// A text is the chunks of its characters taken one by one.
pub proof fn lemma_chunks_single(f: spec_fn(char) -> Seq<char>, s: Seq<char>)
    requires
        forall|c: char| #[trigger] f(c) == seq![c],
    ensures
        chunks(f, s) == s,
    decreases s.len(),
{
    if s.len() > 0 {
        lemma_chunks_single(f, s.skip(1));
        assert(f(s[0]) + s.skip(1) =~= s);
    }
}

proof fn lemma_replace_through_chunk(
    t: Seq<char>,
    head: Seq<char>,
    p: Seq<char>,
    r: Seq<char>,
    j: int,
)
    requires
        0 <= j <= head.len(),
        head.len() <= t.len(),
        t.take(head.len() as int) == head,
        no_start_inside(head, p),
        p.len() > 0,
    ensures
        replace_from(t, p, r, j) == head.subrange(j, head.len() as int) + replace_from(
            t,
            p,
            r,
            head.len() as int,
        ),
    decreases head.len() - j,
{
    if j < head.len() {
        lemma_replace_through_chunk(t, head, p, r, j + 1);
        assert(t[j] == head[j]);
        assert(!occurs_at(t, j, p)) by {
            if occurs_at(t, j, p) {
                assert(t.subrange(j, j + p.len())[0] == t[j]);
                if t[j] == p[0] {
                    assert(j + 1 < head.len() && p.len() > 1 && head[j + 1] != p[1]);
                    assert(t[j + 1] == head[j + 1]);
                    assert(t.subrange(j, j + p.len())[1] == t[j + 1]);
                }
            }
        }
        assert(head.subrange(j, head.len() as int) =~= seq![head[j]] + head.subrange(
            j + 1,
            head.len() as int,
        ));
    } else {
        assert(head.subrange(j, head.len() as int) =~= Seq::<char>::empty());
    }
}

/// Replacing `p` by `r` in a text made of chunks, where each chunk is either
/// `p` itself, which becomes `r`, or a chunk in which no occurrence of `p`
/// starts, which stays, rewrites each chunk on its own.
pub proof fn lemma_replace_chunks(
    f: spec_fn(char) -> Seq<char>,
    g: spec_fn(char) -> Seq<char>,
    s: Seq<char>,
    p: Seq<char>,
    r: Seq<char>,
)
    requires
        p.len() > 0,
        forall|c: char|
            (#[trigger] f(c) == p && g(c) == r) || (g(c) == f(c) && no_start_inside(f(c), p)),
    ensures
        replace_all(chunks(f, s), p, r) == chunks(g, s),
    decreases s.len(),
{
    let t = chunks(f, s);
    if s.len() == 0 {
        assert(replace_all(t, p, r) =~= Seq::<char>::empty());
    } else {
        let head = f(s[0]);
        let rest = chunks(f, s.skip(1));
        lemma_replace_chunks(f, g, s.skip(1), p, r);
        assert(t == head + rest);
        let n = head.len() as int;
        lemma_replace_from_skip(t, p, r, n, 0);
        assert(t.skip(n) =~= rest);
        assert(t.take(n) =~= head);
        if head == p && g(s[0]) == r {
            assert(t.subrange(0, p.len() as int) =~= p);
            assert(occurs_at(t, 0, p));
        } else {
            lemma_replace_through_chunk(t, head, p, r, 0);
            assert(head.subrange(0, n) =~= head);
        }
    }
}

// ---------------------------------------------------------------------------
// Executable functions
// ---------------------------------------------------------------------------

/// Appends one character to a string.
#[verifier::external_body]
pub(crate) fn push_char(s: &mut String, c: char)
    ensures
        final(s)@ == old(s)@.push(c),
{
    s.push(c);
}

/// The characters of a string slice, in order.
pub fn chars_of(s: &str) -> (v: Vec<char>)
    ensures
        v@ == s@,
{
    let mut v: Vec<char> = Vec::new();
    for c in it: s.chars()
        invariant
            v@ == it.seq().take(it.index() as int),
            it.seq() == s@,
    {
        v.push(c);
    }
    v
}

/// Builds a string holding the given characters.
pub fn string_of(v: &Vec<char>) -> (s: String)
    ensures
        s@ == v@,
{
    let mut s = String::new();
    let mut i: usize = 0;
    while i < v.len()
        invariant
            i <= v.len(),
            s@ == v@.take(i as int),
        decreases v.len() - i,
    {
        push_char(&mut s, v[i]);
        assert(v@.take(i + 1) == v@.take(i as int).push(v@[i as int]));
        i = i + 1;
    }
    assert(v@.take(v.len() as int) == v@);
    s
}

/// The characters of `s` from index `from` up to (not including) `to`.
pub fn sub_chars(s: &Vec<char>, from: usize, to: usize) -> (r: Vec<char>)
    requires
        from <= to <= s.len(),
    ensures
        r@ == s@.subrange(from as int, to as int),
{
    let mut r: Vec<char> = Vec::new();
    let mut i = from;
    while i < to
        invariant
            from <= i <= to <= s.len(),
            r@ == s@.subrange(from as int, i as int),
        decreases to - i,
    {
        r.push(s[i]);
        assert(s@.subrange(from as int, i + 1) == s@.subrange(from as int, i as int).push(
            s@[i as int],
        ));
        i = i + 1;
    }
    r
}

/// Appends the characters of `b` to `a`.
pub fn append_chars(a: &mut Vec<char>, b: &Vec<char>)
    ensures
        final(a)@ == old(a)@ + b@,
{
    let mut i: usize = 0;
    while i < b.len()
        invariant
            i <= b.len(),
            a@ == old(a)@ + b@.take(i as int),
        decreases b.len() - i,
    {
        a.push(b[i]);
        assert(b@.take(i + 1) == b@.take(i as int).push(b@[i as int]));
        i = i + 1;
    }
    assert(b@.take(b.len() as int) == b@);
}

/// Index of the first `c` at or after `from`, or `s.len()`.
pub fn find_char_from(s: &Vec<char>, c: char, from: usize) -> (r: usize)
    requires
        from <= s.len(),
    ensures
        r == find_from(s@, c, from as int),
        from <= r <= s.len(),
{
    proof {
        lemma_find_from_char(s@, c, from as int);
    }
    let mut i = from;
    while i < s.len()
        invariant
            from <= i <= s.len(),
            find_from(s@, c, i as int) == find_from(s@, c, from as int),
        decreases s.len() - i,
    {
        if s[i] == c {
            return i;
        }
        i = i + 1;
    }
    i
}

/// Whether `p` occurs in `s` at index `i`.
pub fn occurs_at_exec(s: &Vec<char>, i: usize, p: &Vec<char>) -> (b: bool)
    ensures
        b == occurs_at(s@, i as int, p@),
{
    if p.len() > s.len() || i > s.len() - p.len() {
        return false;
    }
    let mut k: usize = 0;
    while k < p.len()
        invariant
            k <= p.len(),
            i + p.len() <= s.len(),
            forall|j: int| 0 <= j < k ==> s@[i + j] == p@[j],
        decreases p.len() - k,
    {
        if s[i + k] != p[k] {
            assert(s@.subrange(i as int, i + p.len())[k as int] != p@[k as int]);
            return false;
        }
        k = k + 1;
    }
    assert(s@.subrange(i as int, i + p.len()) =~= p@);
    true
}

/// Whether `s` and `t` hold the same characters.
pub fn chars_eq(s: &Vec<char>, t: &Vec<char>) -> (b: bool)
    ensures
        b == (s@ == t@),
{
    if s.len() != t.len() {
        return false;
    }
    let b = occurs_at_exec(s, 0, t);
    proof {
        if b {
            assert(s@.subrange(0, t@.len() as int) =~= s@);
        }
        if s@ == t@ {
            assert(s@.subrange(0, t@.len() as int) =~= s@);
        }
    }
    b
}

/// Whether `p` occurs anywhere in `s`.
pub fn contains_chars(s: &Vec<char>, p: &Vec<char>) -> (b: bool)
    ensures
        b == contains(s@, p@),
{
    if p.len() > s.len() {
        assert forall|j: int| !occurs_at(s@, j, p@) by {}
        return false;
    }
    let last = s.len() - p.len();
    let mut i: usize = 0;
    while i <= last
        invariant
            last == s.len() - p.len(),
            i <= last + 1,
            forall|j: int| 0 <= j < i ==> !occurs_at(s@, j, p@),
        decreases last + 1 - i,
    {
        if occurs_at_exec(s, i, p) {
            return true;
        }
        if i == last {
            assert forall|j: int| !occurs_at(s@, j, p@) by {}
            return false;
        }
        i = i + 1;
    }
    assert forall|j: int| !occurs_at(s@, j, p@) by {}
    false
}

/// `s` without the run of `c` at its end.
pub fn trim_end_chars(s: &Vec<char>, c: char) -> (r: Vec<char>)
    ensures
        r@ == trim_end_char(s@, c),
{
    let mut n = s.len();
    assert(s@.take(n as int) =~= s@);
    while n > 0 && s[n - 1] == c
        invariant
            n <= s.len(),
            trim_end_char(s@.take(n as int), c) == trim_end_char(s@, c),
        decreases n,
    {
        let ghost t = s@.take(n as int);
        assert(t.last() == c);
        assert(t.drop_last() =~= s@.take(n - 1));
        assert(trim_end_char(t, c) == trim_end_char(t.drop_last(), c));
        n = n - 1;
    }
    let r = sub_chars(s, 0, n);
    assert(r@ =~= s@.take(n as int));
    proof {
        let t = s@.take(n as int);
        if n > 0 {
            assert(t.last() != c);
        }
        assert(trim_end_char(t, c) == t);
    }
    r
}

/// `s` with every non-overlapping occurrence of `p`, taken from the left,
/// replaced by `r`.
pub fn replace_chars(s: &Vec<char>, p: &Vec<char>, r: &Vec<char>) -> (out: Vec<char>)
    requires
        p.len() > 0,
    ensures
        out@ == replace_all(s@, p@, r@),
{
    let mut out: Vec<char> = Vec::new();
    let mut i: usize = 0;
    while i < s.len()
        invariant
            i <= s.len(),
            p.len() > 0,
            replace_all(s@, p@, r@) == out@ + replace_from(s@, p@, r@, i as int),
        decreases s.len() - i,
    {
        let ghost before = out@;
        if occurs_at_exec(s, i, p) {
            append_chars(&mut out, r);
            assert(before + (r@ + replace_from(s@, p@, r@, i + p.len())) == out@ + replace_from(
                s@,
                p@,
                r@,
                i + p.len(),
            ));
            i = i + p.len();
        } else {
            out.push(s[i]);
            assert(before + (seq![s@[i as int]] + replace_from(s@, p@, r@, i + 1)) == out@
                + replace_from(s@, p@, r@, i + 1));
            i = i + 1;
        }
    }
    assert(replace_from(s@, p@, r@, i as int) =~= Seq::<char>::empty());
    assert(out@ + Seq::<char>::empty() == out@);
    out
}

/// `s` with every non-overlapping occurrence of `pat`, taken from the left,
/// replaced by `rep`, as `str::replace` does for a non-empty pattern.
pub fn replace_str(s: &str, pat: &str, rep: &str) -> (out: String)
    requires
        pat@.len() > 0,
    ensures
        out@ == replace_all(s@, pat@, rep@),
{
    let sv = chars_of(s);
    let pv = chars_of(pat);
    let rv = chars_of(rep);
    let out = replace_chars(&sv, &pv, &rv);
    string_of(&out)
}

/// The decimal digits of `n`, most significant first.
pub fn decimal_u64(n: u64) -> (r: Vec<char>)
    ensures
        r@ == decimal_digits(n as nat),
    decreases n,
{
    if n < 10 {
        let mut r: Vec<char> = Vec::new();
        r.push(((n as u8) + 48) as char);
        r
    } else {
        let mut r = decimal_u64(n / 10);
        r.push((((n % 10) as u8) + 48) as char);
        r
    }
}

/// The decimal representation of `n`, with a leading `-` when negative.
pub fn decimal_i64(n: i64) -> (r: Vec<char>)
    ensures
        r@ == decimal(n as int),
{
    if n < 0 {
        let m: u64 = if n == i64::MIN {
            9223372036854775808u64
        } else {
            (-n) as u64
        };
        let digits = decimal_u64(m);
        let mut r: Vec<char> = Vec::new();
        r.push('-');
        append_chars(&mut r, &digits);
        r
    } else {
        decimal_u64(n as u64)
    }
}

/// The parts joined with `sep` between each neighbouring pair.
pub fn join_chars(parts: &Vec<Vec<char>>, sep: &Vec<char>) -> (r: Vec<char>)
    ensures
        r@ == join(parts@.map_values(|p: Vec<char>| p@), sep@),
{
    let ghost views = parts@.map_values(|p: Vec<char>| p@);
    let mut r: Vec<char> = Vec::new();
    let mut i: usize = 0;
    while i < parts.len()
        invariant
            i <= parts.len(),
            views == parts@.map_values(|p: Vec<char>| p@),
            r@ == join(views.take(i as int), sep@),
        decreases parts.len() - i,
    {
        assert(views.take(i + 1).drop_last() =~= views.take(i as int));
        if i > 0 {
            append_chars(&mut r, sep);
        }
        append_chars(&mut r, &parts[i]);
        i = i + 1;
    }
    assert(views.take(parts.len() as int) =~= views);
    r
}

} // verus!
