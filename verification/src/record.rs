//! Parsing one raw record into its field mapping: the record is stripped of
//! trailing line terminators, split on the field delimiter, and each token is
//! split at its first assignment character into a (name, value) pair.  Tokens
//! with no assignment character or an empty name are dropped, never an error.
//! A duplicate name keeps its last occurrence, as repeated insertion into a
//! map would.

use vstd::prelude::*;

use crate::bytes::{
    ASSIGN,
    FIELD_SEP,
    bytes_eq,
    clone_bytes,
    copy_range,
    find_byte,
    has_byte,
    lemma_find_byte_at,
    lemma_find_byte_missing,
    lemma_find_byte_spec,
    split_bytes,
    split_on,
    strip_line_ends,
    strip_line_ends_exec,
    views_of,
    views_of_pairs,
};

verus! {

/// One token parsed at its first assignment character: `Some((name, value))`,
/// or `None` when the token has no assignment character or an empty name.
pub open spec fn parse_token(t: Seq<u8>) -> Option<(Seq<u8>, Seq<u8>)> {
    match find_byte(t, ASSIGN) {
        Some(i) => if i == 0 {
            None
        } else {
            Some((t.take(i), t.skip(i + 1)))
        },
        None => None,
    }
}

/// The field pairs of a token sequence, in token order, malformed tokens dropped.
pub open spec fn parse_tokens(ts: Seq<Seq<u8>>) -> Seq<(Seq<u8>, Seq<u8>)>
    decreases ts.len(),
{
    if ts.len() == 0 {
        Seq::<(Seq<u8>, Seq<u8>)>::empty()
    } else {
        match parse_token(ts.first()) {
            Some(p) => seq![p] + parse_tokens(ts.drop_first()),
            None => parse_tokens(ts.drop_first()),
        }
    }
}

/// The field mapping of one raw record.
pub open spec fn record_fields(line: Seq<u8>) -> Seq<(Seq<u8>, Seq<u8>)> {
    parse_tokens(split_on(strip_line_ends(line), FIELD_SEP))
}

/// Last-occurrence-wins lookup in a field pair sequence: a later duplicate
/// name shadows an earlier one.
pub open spec fn field_lookup(m: Seq<(Seq<u8>, Seq<u8>)>, k: Seq<u8>) -> Option<Seq<u8>>
    decreases m.len(),
{
    if m.len() == 0 {
        None
    } else if m.last().0 == k {
        Some(m.last().1)
    } else {
        field_lookup(m.drop_last(), k)
    }
}

/// Parsing distributes over concatenation of token sequences.
pub proof fn lemma_parse_tokens_append(a: Seq<Seq<u8>>, b: Seq<Seq<u8>>)
    ensures
        parse_tokens(a + b) == parse_tokens(a) + parse_tokens(b),
    decreases a.len(),
{
    if a.len() == 0 {
        assert(a + b =~= b);
        assert(parse_tokens(a) + parse_tokens(b) =~= parse_tokens(b));
    } else {
        assert((a + b).first() == a.first());
        assert((a + b).drop_first() =~= a.drop_first() + b);
        lemma_parse_tokens_append(a.drop_first(), b);
        match parse_token(a.first()) {
            Some(p) => {
                assert(seq![p] + (parse_tokens(a.drop_first()) + parse_tokens(b)) =~= (seq![p]
                    + parse_tokens(a.drop_first())) + parse_tokens(b));
            }
            None => {}
        }
    }
}

/// A single token parses to its own pair, or to nothing.
pub proof fn lemma_parse_tokens_one(t: Seq<u8>)
    ensures
        parse_tokens(seq![t]) == match parse_token(t) {
            Some(p) => seq![p],
            None => Seq::<(Seq<u8>, Seq<u8>)>::empty(),
        },
{
    assert(seq![t].drop_first() =~= Seq::<Seq<u8>>::empty());
    assert(parse_tokens(Seq::<Seq<u8>>::empty()) =~= Seq::<(Seq<u8>, Seq<u8>)>::empty());
    match parse_token(t) {
        Some(p) => {
            assert(parse_tokens(seq![t]) =~= seq![p]);
        }
        None => {}
    }
}

/// A name that lookup finds is the name of some pair; one it misses is no
/// pair's name.
pub proof fn lemma_field_lookup_membership(m: Seq<(Seq<u8>, Seq<u8>)>, k: Seq<u8>)
    ensures
        match field_lookup(m, k) {
            Some(v) => exists|i: int| 0 <= i < m.len() && #[trigger] m[i] == (k, v),
            None => forall|i: int| 0 <= i < m.len() ==> (#[trigger] m[i]).0 != k,
        },
    decreases m.len(),
{
    if m.len() == 0 {
    } else if m.last().0 == k {
        assert(m[m.len() - 1] == (k, m.last().1));
    } else {
        lemma_field_lookup_membership(m.drop_last(), k);
        match field_lookup(m.drop_last(), k) {
            Some(v) => {
                let i = choose|i: int|
                    0 <= i < m.drop_last().len() && #[trigger] m.drop_last()[i] == (k, v);
                assert(m[i] == (k, v));
            }
            None => {
                assert forall|i: int| 0 <= i < m.len() implies (#[trigger] m[i]).0 != k by {
                    if i < m.len() - 1 {
                        assert(m.drop_last()[i] == m[i]);
                    }
                }
            }
        }
    }
}

/// The (name, value) split of one token, or `None` for a malformed token.
pub fn parse_token_exec(t: &Vec<u8>) -> (r: Option<(Vec<u8>, Vec<u8>)>)
    ensures
        r matches Some(p) ==> parse_token(t@) == Some((p.0@, p.1@)),
        r is None ==> parse_token(t@) is None,
{
    let mut i: usize = 0;
    while i < t.len()
        invariant
            i <= t@.len(),
            forall|j: int| 0 <= j < i ==> t@[j] != ASSIGN,
        decreases t@.len() - i,
    {
        if t[i] == ASSIGN {
            proof {
                lemma_find_byte_at(t@, ASSIGN, i as int);
            }
            if i == 0 {
                return None;
            }
            let name = copy_range(t, 0, i);
            let value = copy_range(t, i + 1, t.len());
            proof {
                assert(t@.subrange(0, i as int) =~= t@.take(i as int));
                assert(t@.subrange(i + 1 as int, t@.len() as int) =~= t@.skip(i + 1));
            }
            return Some((name, value));
        }
        i = i + 1;
    }
    proof {
        lemma_find_byte_missing(t@, ASSIGN);
    }
    None
}

/// The field mapping of one raw record, as fresh (name, value) vectors in
/// token order.
pub fn parse_record(line: &Vec<u8>) -> (r: Vec<(Vec<u8>, Vec<u8>)>)
    ensures
        views_of_pairs(r@) == record_fields(line@),
{
    let stripped = strip_line_ends_exec(line);
    let tokens = split_bytes(&stripped, FIELD_SEP);
    let ghost tviews = views_of(tokens@);
    let mut r: Vec<(Vec<u8>, Vec<u8>)> = Vec::new();
    let mut i: usize = 0;
    proof {
        assert(tviews.take(0) =~= Seq::<Seq<u8>>::empty());
        assert(views_of_pairs(r@) =~= Seq::<(Seq<u8>, Seq<u8>)>::empty());
        assert(parse_tokens(Seq::<Seq<u8>>::empty()) =~= Seq::<(Seq<u8>, Seq<u8>)>::empty());
    }
    while i < tokens.len()
        invariant
            i <= tokens@.len(),
            tviews == views_of(tokens@),
            tviews == split_on(strip_line_ends(line@), FIELD_SEP),
            views_of_pairs(r@) == parse_tokens(tviews.take(i as int)),
        decreases tokens@.len() - i,
    {
        proof {
            assert(tviews.take(i + 1) =~= tviews.take(i as int) + seq![tviews[i as int]]);
            lemma_parse_tokens_append(tviews.take(i as int), seq![tviews[i as int]]);
            lemma_parse_tokens_one(tviews[i as int]);
            assert(tviews[i as int] == tokens@[i as int]@);
        }
        match parse_token_exec(&tokens[i]) {
            Some(p) => {
                let ghost pv = (p.0@, p.1@);
                r.push(p);
                proof {
                    assert(views_of_pairs(r@) =~= views_of_pairs(r@.drop_last()) + seq![pv]);
                    assert(views_of_pairs(r@) =~= parse_tokens(tviews.take(i + 1)));
                }
            }
            None => {
                proof {
                    assert(views_of_pairs(r@) =~= parse_tokens(tviews.take(i + 1)));
                }
            }
        }
        i = i + 1;
    }
    proof {
        assert(tviews.take(tokens@.len() as int) =~= tviews);
    }
    r
}

/// The value of the last pair named `k`, if any, as a fresh vector.
pub fn field_lookup_exec(pairs: &Vec<(Vec<u8>, Vec<u8>)>, k: &Vec<u8>) -> (r: Option<Vec<u8>>)
    ensures
        r matches Some(v) ==> field_lookup(views_of_pairs(pairs@), k@) == Some(v@),
        r is None ==> field_lookup(views_of_pairs(pairs@), k@) is None,
{
    let ghost m = views_of_pairs(pairs@);
    let mut i: usize = pairs.len();
    proof {
        assert(m.take(pairs@.len() as int) =~= m);
    }
    while i > 0
        invariant
            i <= pairs@.len(),
            m == views_of_pairs(pairs@),
            field_lookup(m, k@) == field_lookup(m.take(i as int), k@),
        decreases i,
    {
        proof {
            assert(m.take(i as int).last() == m[i - 1]);
            assert(m.take(i as int).drop_last() =~= m.take(i - 1));
        }
        if bytes_eq(&pairs[i - 1].0, k) {
            let v = clone_bytes(&pairs[i - 1].1);
            return Some(v);
        }
        i = i - 1;
    }
    proof {
        assert(m.take(0) =~= Seq::<(Seq<u8>, Seq<u8>)>::empty());
    }
    None
}

} // verus!
