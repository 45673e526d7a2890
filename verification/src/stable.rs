//! Idempotence of projection: a projected line, fed through the pipeline
//! again with the same selected fields, reproduces itself byte for byte.
//! The proof walks the round trip: a projected body splits back into exactly
//! the selected tokens, each token parses back into exactly its (name, value)
//! pair, and looking a selected name up among the selected pairs agrees with
//! looking it up in the original record.

use vstd::prelude::*;

use crate::bytes::{
    ASSIGN,
    FIELD_SEP,
    LINE_END,
    has_byte,
    join_tokens,
    lemma_find_byte_at,
    lemma_join_tokens_free,
    lemma_find_byte_spec,
    lemma_split_join,
    lemma_split_on_tokens,
    split_on,
    strip_line_ends,
};
use crate::record::{
    field_lookup,
    lemma_field_lookup_membership,
    parse_token,
    parse_tokens,
    record_fields,
};
use crate::depth::Depth;
use crate::project::{
    kv_token,
    projected_body,
    projected_line,
    selected_pairs,
    selected_tokens,
};
use crate::stream::spec_outputs;

verus! {

/// Neither half of the pair contains byte `c`.
pub open spec fn pair_free_of(p: (Seq<u8>, Seq<u8>), c: u8) -> bool {
    !has_byte(p.0, c) && !has_byte(p.1, c)
}

/// A parsed pair in well-formed shape: a nonempty name with no assignment
/// character, and the token it came from is the pair re-serialized.
pub proof fn lemma_parse_token_shape(t: Seq<u8>, k: Seq<u8>, v: Seq<u8>)
    requires
        parse_token(t) == Some((k, v)),
    ensures
        k.len() >= 1,
        !has_byte(k, ASSIGN),
        t == kv_token(k, v),
{
    lemma_find_byte_spec(t, ASSIGN);
    match crate::bytes::find_byte(t, ASSIGN) {
        Some(i) => {
            assert(k == t.take(i));
            assert(v == t.skip(i + 1));
            assert forall|j: int| 0 <= j < k.len() implies k[j] != ASSIGN by {
                assert(k[j] == t[j]);
            }
            assert(t =~= t.take(i) + seq![ASSIGN] + t.skip(i + 1));
        }
        None => {
            assert(false);
        }
    }
}

/// Both halves of a parsed pair are free of any byte its token is free of.
pub proof fn lemma_parse_token_free(t: Seq<u8>, k: Seq<u8>, v: Seq<u8>, c: u8)
    requires
        parse_token(t) == Some((k, v)),
        !has_byte(t, c),
    ensures
        pair_free_of((k, v), c),
{
    lemma_parse_token_shape(t, k, v);
    assert forall|j: int| 0 <= j < k.len() implies k[j] != c by {
        assert(t[j] == k[j]);
        assert(t[j] != c);
    }
    assert forall|j: int| 0 <= j < v.len() implies v[j] != c by {
        assert(t[k.len() + 1 + j] == v[j]);
        assert(t[k.len() + 1 + j] != c);
    }
}

/// A well-formed token re-parses to exactly its own pair.
pub proof fn lemma_parse_token_of_kv(k: Seq<u8>, v: Seq<u8>)
    requires
        k.len() >= 1,
        !has_byte(k, ASSIGN),
    ensures
        parse_token(kv_token(k, v)) == Some((k, v)),
{
    let t = kv_token(k, v);
    assert(t[k.len() as int] == ASSIGN);
    assert forall|j: int| 0 <= j < k.len() implies t[j] != ASSIGN by {
        assert(t[j] == k[j]);
    }
    lemma_find_byte_at(t, ASSIGN, k.len() as int);
    assert(t.take(k.len() as int) =~= k);
    assert(t.skip(k.len() as int + 1) =~= v);
}

/// Every pair parsed from a token sequence has a nonempty name free of the
/// assignment character.
pub proof fn lemma_parse_tokens_shape(ts: Seq<Seq<u8>>)
    ensures
        forall|j: int|
            0 <= j < parse_tokens(ts).len() ==> (#[trigger] parse_tokens(ts)[j]).0.len() >= 1
                && !has_byte(parse_tokens(ts)[j].0, ASSIGN),
    decreases ts.len(),
{
    if ts.len() == 0 {
    } else {
        lemma_parse_tokens_shape(ts.drop_first());
        let rest = parse_tokens(ts.drop_first());
        match parse_token(ts.first()) {
            Some(p) => {
                lemma_parse_token_shape(ts.first(), p.0, p.1);
                let r = parse_tokens(ts);
                assert(r == seq![p] + rest);
                assert forall|j: int| 0 <= j < r.len() implies (#[trigger] r[j]).0.len() >= 1
                    && !has_byte(r[j].0, ASSIGN) by {
                    if j == 0 {
                        assert(r[0] == p);
                    } else {
                        assert(r[j] == rest[j - 1]);
                    }
                }
            }
            None => {
                assert(parse_tokens(ts) == rest);
            }
        }
    }
}

/// Every pair parsed from tokens free of `c` is itself free of `c`.
pub proof fn lemma_parse_tokens_free(ts: Seq<Seq<u8>>, c: u8)
    requires
        forall|i: int| 0 <= i < ts.len() ==> !has_byte(#[trigger] ts[i], c),
    ensures
        forall|j: int|
            0 <= j < parse_tokens(ts).len() ==> pair_free_of(#[trigger] parse_tokens(ts)[j], c),
    decreases ts.len(),
{
    if ts.len() == 0 {
    } else {
        assert(forall|i: int| 0 <= i < ts.drop_first().len() ==> ts.drop_first()[i] == ts[i + 1]);
        lemma_parse_tokens_free(ts.drop_first(), c);
        let rest = parse_tokens(ts.drop_first());
        match parse_token(ts.first()) {
            Some(p) => {
                lemma_parse_token_free(ts.first(), p.0, p.1, c);
                let r = parse_tokens(ts);
                assert(r == seq![p] + rest);
                assert forall|j: int| 0 <= j < r.len() implies pair_free_of(#[trigger] r[j], c) by {
                    if j == 0 {
                        assert(r[0] == p);
                    } else {
                        assert(r[j] == rest[j - 1]);
                    }
                }
            }
            None => {
                assert(parse_tokens(ts) == rest);
            }
        }
    }
}

/// The field mapping of any record is well-formed: names are nonempty and
/// free of the assignment character, and names and values are free of the
/// field delimiter; a record with no interior line terminator yields pairs
/// free of the line terminator too.
pub proof fn lemma_record_fields_wf(line: Seq<u8>)
    ensures
        forall|j: int|
            0 <= j < record_fields(line).len() ==> (#[trigger] record_fields(line)[j]).0.len() >= 1
                && !has_byte(record_fields(line)[j].0, ASSIGN) && pair_free_of(
                record_fields(line)[j],
                FIELD_SEP,
            ),
        !has_byte(strip_line_ends(line), LINE_END) ==> forall|j: int|
            0 <= j < record_fields(line).len() ==> pair_free_of(
                #[trigger] record_fields(line)[j],
                LINE_END,
            ),
{
    let s = strip_line_ends(line);
    let ts = split_on(s, FIELD_SEP);
    lemma_split_on_tokens(s, FIELD_SEP, FIELD_SEP);
    lemma_parse_tokens_shape(ts);
    lemma_parse_tokens_free(ts, FIELD_SEP);
    if !has_byte(s, LINE_END) {
        lemma_split_on_tokens(s, FIELD_SEP, LINE_END);
        lemma_parse_tokens_free(ts, LINE_END);
    }
}

/// Every selected pair carries the value the record's mapping gives its name.
pub proof fn lemma_selected_pairs_from(m: Seq<(Seq<u8>, Seq<u8>)>, fields: Seq<Seq<u8>>)
    ensures
        forall|j: int|
            0 <= j < selected_pairs(m, fields).len() ==> field_lookup(
                m,
                (#[trigger] selected_pairs(m, fields)[j]).0,
            ) == Some(selected_pairs(m, fields)[j].1),
    decreases fields.len(),
{
    if fields.len() == 0 {
    } else {
        lemma_selected_pairs_from(m, fields.drop_first());
        let rest = selected_pairs(m, fields.drop_first());
        match field_lookup(m, fields.first()) {
            Some(v) => {
                let r = selected_pairs(m, fields);
                assert(r == seq![(fields.first(), v)] + rest);
                assert forall|j: int| 0 <= j < r.len() implies field_lookup(
                    m,
                    (#[trigger] r[j]).0,
                ) == Some(r[j].1) by {
                    if j == 0 {
                        assert(r[0] == (fields.first(), v));
                    } else {
                        assert(r[j] == rest[j - 1]);
                    }
                }
            }
            None => {
                assert(selected_pairs(m, fields) == rest);
            }
        }
    }
}

/// A selected name the record knows appears among the selected pairs, with
/// its value.
pub proof fn lemma_selected_pairs_contains(
    m: Seq<(Seq<u8>, Seq<u8>)>,
    fields: Seq<Seq<u8>>,
    k: Seq<u8>,
    v: Seq<u8>,
)
    requires
        fields.contains(k),
        field_lookup(m, k) == Some(v),
    ensures
        exists|j: int|
            0 <= j < selected_pairs(m, fields).len() && #[trigger] selected_pairs(m, fields)[j]
                == (k, v),
    decreases fields.len(),
{
    let r = selected_pairs(m, fields);
    let i = choose|i: int| 0 <= i < fields.len() && fields[i] == k;
    if fields.first() == k {
        assert(r[0] == (k, v));
    } else {
        assert(fields.drop_first()[i - 1] == k);
        assert(fields.drop_first().contains(k));
        lemma_selected_pairs_contains(m, fields.drop_first(), k, v);
        let rest = selected_pairs(m, fields.drop_first());
        let j = choose|j: int| 0 <= j < rest.len() && #[trigger] rest[j] == (k, v);
        match field_lookup(m, fields.first()) {
            Some(w) => {
                assert(r == seq![(fields.first(), w)] + rest);
                assert(r[j + 1] == (k, v));
            }
            None => {
                assert(r == rest);
            }
        }
    }
}

/// Looking a selected name up among the selected pairs agrees with looking
/// it up in the record's own mapping.
pub proof fn lemma_lookup_in_selected(m: Seq<(Seq<u8>, Seq<u8>)>, fields: Seq<Seq<u8>>, k: Seq<u8>)
    requires
        fields.contains(k),
    ensures
        field_lookup(selected_pairs(m, fields), k) == field_lookup(m, k),
{
    let sel = selected_pairs(m, fields);
    lemma_selected_pairs_from(m, fields);
    lemma_field_lookup_membership(sel, k);
    match field_lookup(sel, k) {
        Some(w) => {
            let j = choose|j: int| 0 <= j < sel.len() && #[trigger] sel[j] == (k, w);
            assert(field_lookup(m, sel[j].0) == Some(sel[j].1));
        }
        None => {
            match field_lookup(m, k) {
                Some(v) => {
                    lemma_selected_pairs_contains(m, fields, k, v);
                    let j = choose|j: int|
                        0 <= j < sel.len() && #[trigger] sel[j] == (k, v);
                    assert(sel[j].0 == k);
                    assert(false);
                }
                None => {}
            }
        }
    }
}

/// Selecting from an empty mapping selects nothing.
pub proof fn lemma_selected_pairs_empty(fields: Seq<Seq<u8>>)
    ensures
        selected_pairs(Seq::<(Seq<u8>, Seq<u8>)>::empty(), fields) == Seq::<
            (Seq<u8>, Seq<u8>),
        >::empty(),
    decreases fields.len(),
{
    if fields.len() == 0 {
    } else {
        lemma_selected_pairs_empty(fields.drop_first());
    }
}

/// Selection is stable: selecting `sub` out of an already-selected mapping is
/// selecting `sub` out of the original, as long as every name of `sub` was
/// selected.
pub proof fn lemma_selected_pairs_stable(
    m: Seq<(Seq<u8>, Seq<u8>)>,
    fields: Seq<Seq<u8>>,
    sub: Seq<Seq<u8>>,
)
    requires
        forall|j: int| 0 <= j < sub.len() ==> fields.contains(#[trigger] sub[j]),
    ensures
        selected_pairs(selected_pairs(m, fields), sub) == selected_pairs(m, sub),
    decreases sub.len(),
{
    if sub.len() == 0 {
    } else {
        assert(fields.contains(sub[0]));
        lemma_lookup_in_selected(m, fields, sub.first());
        assert(forall|j: int| 0 <= j < sub.drop_first().len() ==> sub.drop_first()[j] == sub[j + 1]);
        lemma_selected_pairs_stable(m, fields, sub.drop_first());
    }
}

/// Re-serialized well-formed pairs parse back to exactly themselves.
pub proof fn lemma_parse_tokens_of_pairs(ps: Seq<(Seq<u8>, Seq<u8>)>)
    requires
        forall|j: int|
            0 <= j < ps.len() ==> (#[trigger] ps[j]).0.len() >= 1 && !has_byte(ps[j].0, ASSIGN),
    ensures
        parse_tokens(ps.map_values(|p: (Seq<u8>, Seq<u8>)| kv_token(p.0, p.1))) == ps,
    decreases ps.len(),
{
    let ts = ps.map_values(|p: (Seq<u8>, Seq<u8>)| kv_token(p.0, p.1));
    if ps.len() == 0 {
        assert(ts =~= Seq::<Seq<u8>>::empty());
        assert(parse_tokens(ts) =~= ps);
    } else {
        assert(ts.first() == kv_token(ps[0].0, ps[0].1));
        lemma_parse_token_of_kv(ps[0].0, ps[0].1);
        assert(forall|j: int| 0 <= j < ps.drop_first().len() ==> ps.drop_first()[j] == ps[j + 1]);
        lemma_parse_tokens_of_pairs(ps.drop_first());
        assert(ts.drop_first() =~= ps.drop_first().map_values(
            |p: (Seq<u8>, Seq<u8>)| kv_token(p.0, p.1),
        ));
        assert(parse_token(ts.first()) == Some((ps[0].0, ps[0].1)));
        assert((ps[0].0, ps[0].1) == ps[0]);
        assert(parse_tokens(ts) =~= seq![ps[0]] + ps.drop_first());
        assert(seq![ps[0]] + ps.drop_first() =~= ps);
    }
}

/// A token of a well-formed pair is free of any byte, other than the
/// assignment character itself, that both halves are free of.
pub proof fn lemma_kv_token_free(k: Seq<u8>, v: Seq<u8>, c: u8)
    requires
        c != ASSIGN,
        !has_byte(k, c),
        !has_byte(v, c),
    ensures
        !has_byte(kv_token(k, v), c),
{
    let t = kv_token(k, v);
    assert forall|j: int| 0 <= j < t.len() implies t[j] != c by {
        if j < k.len() {
            assert(t[j] == k[j]);
            assert(k[j] != c);
        } else if j > k.len() {
            assert(t[j] == v[j - k.len() - 1]);
            assert(v[j - k.len() - 1] != c);
        }
    }
}

/// Stripping a line terminator off a terminator-free body gives the body back.
pub proof fn lemma_strip_clean(s: Seq<u8>)
    requires
        !has_byte(s, LINE_END),
    ensures
        strip_line_ends(s + seq![LINE_END]) == s,
{
    let t = s + seq![LINE_END];
    assert(t.last() == LINE_END);
    assert(t.drop_last() =~= s);
    assert(strip_line_ends(t) == strip_line_ends(t.drop_last()));
    if s.len() > 0 {
        assert(s.last() != LINE_END);
    }
    assert(strip_line_ends(s) == s);
}

/// Every selected pair of a record's mapping is well-formed and, when the
/// record has no interior line terminator, free of the line terminator.
proof fn lemma_selected_pairs_wf(line: Seq<u8>, fields: Seq<Seq<u8>>)
    requires
        !has_byte(strip_line_ends(line), LINE_END),
    ensures
        forall|j: int|
            0 <= j < selected_pairs(record_fields(line), fields).len() ==> {
                let p = #[trigger] selected_pairs(record_fields(line), fields)[j];
                p.0.len() >= 1 && !has_byte(p.0, ASSIGN) && pair_free_of(p, FIELD_SEP)
                    && pair_free_of(p, LINE_END)
            },
{
    let m = record_fields(line);
    let sel = selected_pairs(m, fields);
    lemma_record_fields_wf(line);
    lemma_selected_pairs_from(m, fields);
    assert forall|j: int| 0 <= j < sel.len() implies {
        let p = #[trigger] sel[j];
        p.0.len() >= 1 && !has_byte(p.0, ASSIGN) && pair_free_of(p, FIELD_SEP) && pair_free_of(
            p,
            LINE_END,
        )
    } by {
        lemma_field_lookup_membership(m, sel[j].0);
        let i = choose|i: int| 0 <= i < m.len() && #[trigger] m[i] == (sel[j].0, sel[j].1);
        assert(m[i].0 == sel[j].0 && m[i].1 == sel[j].1);
    }
}

/// A projected line is clean: its body holds no line terminator, so stripping
/// the line gives back exactly the body.
pub proof fn lemma_projected_line_clean(line: Seq<u8>, fields: Seq<Seq<u8>>)
    requires
        !has_byte(strip_line_ends(line), LINE_END),
    ensures
        !has_byte(projected_body(line, fields), LINE_END),
        strip_line_ends(projected_line(line, fields)) == projected_body(line, fields),
{
    let m = record_fields(line);
    let sel = selected_pairs(m, fields);
    let ts = selected_tokens(m, fields);
    lemma_selected_pairs_wf(line, fields);
    assert forall|j: int| 0 <= j < ts.len() implies !has_byte(#[trigger] ts[j], LINE_END) by {
        assert(ts[j] == kv_token(sel[j].0, sel[j].1));
        lemma_kv_token_free(sel[j].0, sel[j].1, LINE_END);
    }
    lemma_join_tokens_free(ts, FIELD_SEP, LINE_END);
    lemma_strip_clean(projected_body(line, fields));
}

/// Projection is idempotent: a projected line, projected again with the same
/// selected fields, reproduces itself byte for byte.  Records with a line
/// terminator in their interior are excluded: there a value can end in a
/// terminator that re-parsing would strip.
pub proof fn lemma_projection_idempotent(line: Seq<u8>, fields: Seq<Seq<u8>>)
    requires
        !has_byte(strip_line_ends(line), LINE_END),
    ensures
        projected_line(projected_line(line, fields), fields) == projected_line(line, fields),
{
    let m = record_fields(line);
    let sel = selected_pairs(m, fields);
    let ts = selected_tokens(m, fields);
    let body = projected_body(line, fields);
    let out = projected_line(line, fields);
    lemma_selected_pairs_wf(line, fields);
    lemma_projected_line_clean(line, fields);
    let m2 = record_fields(out);
    assert(m2 == parse_tokens(split_on(body, FIELD_SEP)));
    if ts.len() == 0 {
        assert(body =~= Seq::<u8>::empty());
        assert(split_on(body, FIELD_SEP) =~= seq![Seq::<u8>::empty()]);
        assert(crate::bytes::find_byte(Seq::<u8>::empty(), ASSIGN) is None);
        assert(parse_token(Seq::<u8>::empty()) is None);
        crate::record::lemma_parse_tokens_one(Seq::<u8>::empty());
        assert(m2 =~= Seq::<(Seq<u8>, Seq<u8>)>::empty());
        lemma_selected_pairs_empty(fields);
        assert(selected_pairs(m2, fields) =~= Seq::<(Seq<u8>, Seq<u8>)>::empty());
        assert(selected_tokens(m2, fields) =~= Seq::<Seq<u8>>::empty());
        assert(projected_line(out, fields) =~= out);
    } else {
        assert forall|j: int| 0 <= j < ts.len() implies !has_byte(#[trigger] ts[j], FIELD_SEP) by {
            assert(ts[j] == kv_token(sel[j].0, sel[j].1));
            lemma_kv_token_free(sel[j].0, sel[j].1, FIELD_SEP);
        }
        lemma_split_join(ts, FIELD_SEP);
        assert(split_on(body, FIELD_SEP) == ts);
        lemma_parse_tokens_of_pairs(sel);
        assert(m2 == sel);
        assert forall|j: int| 0 <= j < fields.len() implies fields.contains(#[trigger] fields[j]) by {
            assert(fields[j] == fields[j]);
        }
        lemma_selected_pairs_stable(m, fields, fields);
        assert(selected_pairs(m2, fields) == sel);
        assert(projected_line(out, fields) == out);
    }
}

/// Re-running the full-depth pipeline on its own output, with the same
/// selected fields, yields byte-identical output, record for record.
pub proof fn lemma_stream_idempotent(lines: Seq<Seq<u8>>, fields: Seq<Seq<u8>>)
    requires
        forall|i: int|
            0 <= i < lines.len() ==> !has_byte(strip_line_ends(#[trigger] lines[i]), LINE_END),
    ensures
        spec_outputs(spec_outputs(lines, fields, Depth::Written), fields, Depth::Written)
            == spec_outputs(lines, fields, Depth::Written),
{
    let o1 = spec_outputs(lines, fields, Depth::Written);
    let o2 = spec_outputs(o1, fields, Depth::Written);
    assert forall|i: int| 0 <= i < o2.len() implies o2[i] == o1[i] by {
        assert(o1[i] == projected_line(lines[i], fields));
        lemma_projection_idempotent(lines[i], fields);
    }
    assert(o2 =~= o1);
}

} // verus!
