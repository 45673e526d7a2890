//! Byte-sequence groundwork: the record wire format is plain bytes, so the
//! splitting, joining and searching that the parser and the serializer need
//! is stated here over `Seq<u8>`, with executable counterparts.

use vstd::prelude::*;

verus! {

/// Field delimiter within a record: a comma.
pub const FIELD_SEP: u8 = 44;

/// Assignment character separating a field name from its value.
pub const ASSIGN: u8 = 61;

/// Line terminator.
pub const LINE_END: u8 = 10;

/// True when byte `c` occurs somewhere in `s`.
pub open spec fn has_byte(s: Seq<u8>, c: u8) -> bool {
    exists|i: int| 0 <= i < s.len() && s[i] == c
}

/// The views of a sequence of byte vectors.
pub open spec fn views_of(ts: Seq<Vec<u8>>) -> Seq<Seq<u8>> {
    ts.map_values(|t: Vec<u8>| t@)
}

/// The views of a sequence of (name, value) vector pairs.
pub open spec fn views_of_pairs(ps: Seq<(Vec<u8>, Vec<u8>)>) -> Seq<(Seq<u8>, Seq<u8>)> {
    ps.map_values(|p: (Vec<u8>, Vec<u8>)| (p.0@, p.1@))
}

/// The line with every trailing line terminator removed.
pub open spec fn strip_line_ends(s: Seq<u8>) -> Seq<u8>
    decreases s.len(),
{
    if s.len() > 0 && s.last() == LINE_END {
        strip_line_ends(s.drop_last())
    } else {
        s
    }
}

/// Index of the first occurrence of `c` in `s`, if any.
pub open spec fn find_byte(s: Seq<u8>, c: u8) -> Option<int>
    decreases s.len(),
{
    if s.len() == 0 {
        None
    } else if s.first() == c {
        Some(0)
    } else {
        match find_byte(s.drop_first(), c) {
            Some(i) => Some(i + 1),
            None => None,
        }
    }
}

/// `find_byte` finds the first occurrence: the byte there is `c` and no
/// earlier byte is, and a `None` means `c` does not occur at all.
pub proof fn lemma_find_byte_spec(s: Seq<u8>, c: u8)
    ensures
        match find_byte(s, c) {
            Some(i) => 0 <= i < s.len() && s[i] == c && forall|j: int| 0 <= j < i ==> s[j] != c,
            None => !has_byte(s, c),
        },
    decreases s.len(),
{
    if s.len() == 0 {
    } else if s.first() == c {
    } else {
        lemma_find_byte_spec(s.drop_first(), c);
        match find_byte(s.drop_first(), c) {
            Some(i) => {
                assert(s[i + 1] == s.drop_first()[i]);
                assert(forall|j: int| 1 <= j < i + 1 ==> s[j] == s.drop_first()[j - 1]);
            }
            None => {
                assert forall|j: int| 0 <= j < s.len() implies s[j] != c by {
                    if j > 0 {
                        assert(s[j] == s.drop_first()[j - 1]);
                    }
                }
            }
        }
    }
}

/// A byte known to be first at position `i` pins `find_byte` down to `i`.
pub proof fn lemma_find_byte_at(s: Seq<u8>, c: u8, i: int)
    requires
        0 <= i < s.len(),
        s[i] == c,
        forall|j: int| 0 <= j < i ==> s[j] != c,
    ensures
        find_byte(s, c) == Some(i),
{
    lemma_find_byte_spec(s, c);
    match find_byte(s, c) {
        Some(k) => {
            if k < i {
                assert(s[k] != c);
            }
            if i < k {
                assert(s[i] != c);
            }
        }
        None => {
            assert(has_byte(s, c));
        }
    }
}

/// A byte absent everywhere makes `find_byte` return `None`.
pub proof fn lemma_find_byte_missing(s: Seq<u8>, c: u8)
    requires
        forall|j: int| 0 <= j < s.len() ==> s[j] != c,
    ensures
        find_byte(s, c) is None,
{
    lemma_find_byte_spec(s, c);
    match find_byte(s, c) {
        Some(k) => {
            assert(s[k] != c);
        }
        None => {}
    }
}

/// `s` split on `sep`: the tokens between separators, in order.  Splitting an
/// empty sequence yields one empty token, so there is always at least one.
pub open spec fn split_on(s: Seq<u8>, sep: u8) -> Seq<Seq<u8>>
    decreases s.len(),
{
    if s.len() == 0 {
        seq![Seq::<u8>::empty()]
    } else if s.first() == sep {
        seq![Seq::<u8>::empty()] + split_on(s.drop_first(), sep)
    } else {
        let rest = split_on(s.drop_first(), sep);
        rest.update(0, seq![s.first()] + rest[0])
    }
}

/// Splitting always yields at least one token.
pub proof fn lemma_split_on_nonempty(s: Seq<u8>, sep: u8)
    ensures
        split_on(s, sep).len() >= 1,
    decreases s.len(),
{
    if s.len() == 0 {
    } else {
        lemma_split_on_nonempty(s.drop_first(), sep);
    }
}

/// A sequence without the separator is a single token.
pub proof fn lemma_split_on_no_sep(s: Seq<u8>, sep: u8)
    requires
        forall|j: int| 0 <= j < s.len() ==> s[j] != sep,
    ensures
        split_on(s, sep) == seq![s],
    decreases s.len(),
{
    if s.len() == 0 {
        assert(s =~= Seq::<u8>::empty());
        assert(split_on(s, sep) =~= seq![s]);
    } else {
        assert(forall|j: int| 0 <= j < s.drop_first().len() ==> s.drop_first()[j] == s[j + 1]);
        lemma_split_on_no_sep(s.drop_first(), sep);
        lemma_split_on_nonempty(s.drop_first(), sep);
        assert(split_on(s, sep) =~= seq![seq![s.first()] + s.drop_first()]);
        assert(seq![s.first()] + s.drop_first() =~= s);
    }
}

/// Splitting off the first separator: with no separator in `a`,
/// `a` `sep` `b` splits into `a` followed by the tokens of `b`.
pub proof fn lemma_split_on_sep(a: Seq<u8>, b: Seq<u8>, sep: u8)
    requires
        forall|j: int| 0 <= j < a.len() ==> a[j] != sep,
    ensures
        split_on(a + seq![sep] + b, sep) == seq![a] + split_on(b, sep),
    decreases a.len(),
{
    let s = a + seq![sep] + b;
    if a.len() == 0 {
        assert(a =~= Seq::<u8>::empty());
        assert(s.first() == sep);
        assert(s.drop_first() =~= b);
        assert(split_on(s, sep) =~= seq![a] + split_on(b, sep));
    } else {
        assert(s.first() == a.first());
        assert(s.first() != sep);
        assert(s.drop_first() =~= a.drop_first() + seq![sep] + b);
        assert(forall|j: int| 0 <= j < a.drop_first().len() ==> a.drop_first()[j] == a[j + 1]);
        lemma_split_on_sep(a.drop_first(), b, sep);
        let rest = split_on(s.drop_first(), sep);
        assert(rest == seq![a.drop_first()] + split_on(b, sep));
        lemma_split_on_nonempty(b, sep);
        assert(rest[0] == a.drop_first());
        assert(seq![s.first()] + rest[0] =~= a);
        assert(rest.update(0, a) =~= seq![a] + split_on(b, sep));
    }
}

/// Every token of a split is free of the separator, and free of any byte the
/// whole sequence is free of.
pub proof fn lemma_split_on_tokens(s: Seq<u8>, sep: u8, c: u8)
    requires
        c == sep || !has_byte(s, c),
    ensures
        forall|i: int|
            0 <= i < split_on(s, sep).len() ==> !has_byte(#[trigger] split_on(s, sep)[i], c),
    decreases s.len(),
{
    if s.len() == 0 {
    } else {
        assert(forall|j: int| 0 <= j < s.drop_first().len() ==> s.drop_first()[j] == s[j + 1]);
        if c != sep {
            assert(!has_byte(s.drop_first(), c));
        }
        lemma_split_on_tokens(s.drop_first(), sep, c);
        let rest = split_on(s.drop_first(), sep);
        if s.first() == sep {
            let r = seq![Seq::<u8>::empty()] + rest;
            assert(!has_byte(r[0], c));
            assert(forall|i: int| 1 <= i < r.len() ==> r[i] == rest[i - 1]);
        } else {
            assert(s.first() != c);
            lemma_split_on_nonempty(s.drop_first(), sep);
            let t0 = seq![s.first()] + rest[0];
            assert forall|k: int| 0 <= k < t0.len() implies t0[k] != c by {
                if k > 0 {
                    assert(rest[0][k - 1] != c);
                }
            }
            let r = rest.update(0, t0);
            assert(forall|i: int| 1 <= i < r.len() ==> r[i] == rest[i]);
        }
    }
}

/// The tokens re-joined with `sep` between them.
pub open spec fn join_tokens(ts: Seq<Seq<u8>>, sep: u8) -> Seq<u8>
    decreases ts.len(),
{
    if ts.len() == 0 {
        Seq::<u8>::empty()
    } else if ts.len() == 1 {
        ts.first()
    } else {
        ts.first() + seq![sep] + join_tokens(ts.drop_first(), sep)
    }
}

/// Joining one more token appends a separator and the token, except to an
/// empty join.
pub proof fn lemma_join_tokens_push(ts: Seq<Seq<u8>>, t: Seq<u8>, sep: u8)
    ensures
        join_tokens(ts.push(t), sep) == if ts.len() == 0 {
            t
        } else {
            join_tokens(ts, sep) + seq![sep] + t
        },
    decreases ts.len(),
{
    if ts.len() == 0 {
        assert(ts.push(t) =~= seq![t]);
        assert(join_tokens(seq![t], sep) == t);
    } else {
        assert(ts.push(t).first() == ts.first());
        assert(ts.push(t).drop_first() =~= ts.drop_first().push(t));
        lemma_join_tokens_push(ts.drop_first(), t, sep);
        if ts.len() == 1 {
            assert(ts.drop_first().len() == 0);
            assert(join_tokens(ts.push(t), sep) == ts.first() + seq![sep] + t);
        }
    }
}

/// A join of separator-free tokens contains no byte that the tokens and the
/// separator are all free of.
pub proof fn lemma_join_tokens_free(ts: Seq<Seq<u8>>, sep: u8, c: u8)
    requires
        c != sep,
        forall|i: int| 0 <= i < ts.len() ==> !has_byte(#[trigger] ts[i], c),
    ensures
        !has_byte(join_tokens(ts, sep), c),
    decreases ts.len(),
{
    if ts.len() == 0 {
    } else if ts.len() == 1 {
        assert(!has_byte(ts[0], c));
    } else {
        assert(forall|i: int| 0 <= i < ts.drop_first().len() ==> ts.drop_first()[i] == ts[i + 1]);
        lemma_join_tokens_free(ts.drop_first(), sep, c);
        let j = ts.first() + seq![sep] + join_tokens(ts.drop_first(), sep);
        assert(!has_byte(ts[0], c));
        assert forall|k: int| 0 <= k < j.len() implies j[k] != c by {
            if k < ts.first().len() {
                assert(ts[0][k] != c);
            } else if k > ts.first().len() {
                assert(join_tokens(ts.drop_first(), sep)[k - ts.first().len() - 1] != c);
            }
        }
    }
}

/// Splitting a join of separator-free tokens recovers the tokens.
pub proof fn lemma_split_join(ts: Seq<Seq<u8>>, sep: u8)
    requires
        ts.len() >= 1,
        forall|i: int| 0 <= i < ts.len() ==> !has_byte(#[trigger] ts[i], sep),
    ensures
        split_on(join_tokens(ts, sep), sep) == ts,
    decreases ts.len(),
{
    if ts.len() == 1 {
        assert(!has_byte(ts[0], sep));
        assert(forall|j: int| 0 <= j < ts[0].len() ==> ts[0][j] != sep);
        lemma_split_on_no_sep(ts.first(), sep);
        assert(split_on(join_tokens(ts, sep), sep) =~= ts);
    } else {
        assert(forall|i: int| 0 <= i < ts.drop_first().len() ==> ts.drop_first()[i] == ts[i + 1]);
        lemma_split_join(ts.drop_first(), sep);
        assert(!has_byte(ts[0], sep));
        assert(forall|j: int| 0 <= j < ts.first().len() ==> ts.first()[j] != sep);
        lemma_split_on_sep(ts.first(), join_tokens(ts.drop_first(), sep), sep);
        assert(seq![ts.first()] + ts.drop_first() =~= ts);
    }
}

/// Byte-for-byte equality of two byte vectors.
pub fn bytes_eq(a: &Vec<u8>, b: &Vec<u8>) -> (r: bool)
    ensures
        r == (a@ == b@),
{
    if a.len() != b.len() {
        return false;
    }
    let mut i: usize = 0;
    while i < a.len()
        invariant
            i <= a@.len(),
            a@.len() == b@.len(),
            forall|j: int| 0 <= j < i ==> a@[j] == b@[j],
        decreases a@.len() - i,
    {
        if a[i] != b[i] {
            return false;
        }
        i = i + 1;
    }
    proof {
        assert(a@ =~= b@);
    }
    true
}

/// The bytes of `v` from `from` (inclusive) to `to` (exclusive), as a fresh vector.
pub fn copy_range(v: &Vec<u8>, from: usize, to: usize) -> (r: Vec<u8>)
    requires
        from <= to <= v@.len(),
    ensures
        r@ == v@.subrange(from as int, to as int),
{
    let mut r: Vec<u8> = Vec::new();
    let mut i: usize = from;
    while i < to
        invariant
            from <= i <= to <= v@.len(),
            r@ == v@.subrange(from as int, i as int),
        decreases to - i,
    {
        r.push(v[i]);
        proof {
            assert(r@ =~= v@.subrange(from as int, i + 1 as int));
        }
        i = i + 1;
    }
    r
}

/// A fresh copy of a byte vector.
pub fn clone_bytes(v: &Vec<u8>) -> (r: Vec<u8>)
    ensures
        r@ == v@,
{
    let r = copy_range(v, 0, v.len());
    proof {
        assert(v@.subrange(0, v@.len() as int) =~= v@);
    }
    r
}

/// Appends all of `src` to `out`.
pub fn append_bytes(out: &mut Vec<u8>, src: &Vec<u8>)
    ensures
        final(out)@ == old(out)@ + src@,
{
    let mut i: usize = 0;
    while i < src.len()
        invariant
            i <= src@.len(),
            out@ == old(out)@ + src@.subrange(0, i as int),
        decreases src@.len() - i,
    {
        out.push(src[i]);
        proof {
            assert(old(out)@ + src@.subrange(0, i + 1 as int) =~= (old(out)@ + src@.subrange(
                0,
                i as int,
            )).push(src@[i as int]));
        }
        i = i + 1;
    }
    proof {
        assert(src@.subrange(0, src@.len() as int) =~= src@);
    }
}

/// Copy of `line` with every trailing line terminator removed.
pub fn strip_line_ends_exec(line: &Vec<u8>) -> (r: Vec<u8>)
    ensures
        r@ == strip_line_ends(line@),
{
    let mut end: usize = line.len();
    proof {
        assert(line@.take(line@.len() as int) =~= line@);
    }
    while end > 0 && line[end - 1] == LINE_END
        invariant
            end <= line@.len(),
            strip_line_ends(line@) == strip_line_ends(line@.take(end as int)),
        decreases end,
    {
        proof {
            assert(line@.take(end as int).last() == LINE_END);
            assert(line@.take(end as int).drop_last() =~= line@.take(end - 1));
        }
        end = end - 1;
    }
    let r = copy_range(line, 0, end);
    proof {
        assert(line@.subrange(0, end as int) =~= line@.take(end as int));
        if end > 0 {
            assert(line@.take(end as int).last() != LINE_END);
        }
    }
    r
}

/// `s` split on `sep` into fresh token vectors, in order.
pub fn split_bytes(s: &Vec<u8>, sep: u8) -> (r: Vec<Vec<u8>>)
    ensures
        views_of(r@) == split_on(s@, sep),
{
    let mut r: Vec<Vec<u8>> = Vec::new();
    let mut start: usize = 0;
    let mut i: usize = 0;
    proof {
        assert(s@.skip(0) =~= s@);
        assert(views_of(r@) =~= Seq::<Seq<u8>>::empty());
    }
    while i < s.len()
        invariant
            start <= i <= s@.len(),
            forall|j: int| start <= j < i ==> s@[j] != sep,
            split_on(s@, sep) == views_of(r@) + split_on(s@.skip(start as int), sep),
        decreases s@.len() - i,
    {
        if s[i] == sep {
            let tok = copy_range(s, start, i);
            proof {
                let a = s@.subrange(start as int, i as int);
                assert(forall|j: int| 0 <= j < a.len() ==> a[j] != sep);
                lemma_split_on_sep(a, s@.skip(i + 1), sep);
                assert(s@.skip(start as int) =~= a + seq![sep] + s@.skip(i + 1));
            }
            r.push(tok);
            proof {
                assert(views_of(r@) =~= views_of(r@.drop_last()) + seq![tok@]);
                assert(views_of(r@.drop_last()) + (seq![tok@] + split_on(s@.skip(i + 1), sep))
                    =~= views_of(r@) + split_on(s@.skip(i + 1), sep));
            }
            start = i + 1;
        }
        i = i + 1;
    }
    let tok = copy_range(s, start, s.len());
    proof {
        let a = s@.subrange(start as int, s@.len() as int);
        assert(a =~= s@.skip(start as int));
        assert(forall|j: int| 0 <= j < a.len() ==> a[j] != sep);
        lemma_split_on_no_sep(a, sep);
    }
    r.push(tok);
    proof {
        assert(views_of(r@) =~= views_of(r@.drop_last()) + seq![tok@]);
        assert(views_of(r@.drop_last()) + seq![tok@] =~= views_of(r@.drop_last()) + split_on(
            s@.skip(start as int),
            sep,
        ));
    }
    r
}

} // verus!
