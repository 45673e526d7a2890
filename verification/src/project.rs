//! Projection: the selected fields of one record, re-serialized in the
//! caller's order as a single delimited line.  A selected name missing from
//! the record contributes nothing; a selected name the record knows
//! contributes one `name=value` token.

use vstd::prelude::*;

use crate::bytes::{
    ASSIGN,
    FIELD_SEP,
    LINE_END,
    append_bytes,
    clone_bytes,
    join_tokens,
    lemma_join_tokens_push,
    views_of,
    views_of_pairs,
};
use crate::depth::Depth;
use crate::record::{
    field_lookup,
    field_lookup_exec,
    parse_record,
    record_fields,
};

verus! {

/// The selected (name, value) pairs of a field mapping: for each selected
/// name in selection order, its value in the record, missing names omitted.
pub open spec fn selected_pairs(m: Seq<(Seq<u8>, Seq<u8>)>, fields: Seq<Seq<u8>>) -> Seq<
    (Seq<u8>, Seq<u8>),
>
    decreases fields.len(),
{
    if fields.len() == 0 {
        Seq::<(Seq<u8>, Seq<u8>)>::empty()
    } else {
        match field_lookup(m, fields.first()) {
            Some(v) => seq![(fields.first(), v)] + selected_pairs(m, fields.drop_first()),
            None => selected_pairs(m, fields.drop_first()),
        }
    }
}

/// One `name=value` token.
pub open spec fn kv_token(k: Seq<u8>, v: Seq<u8>) -> Seq<u8> {
    k + seq![ASSIGN] + v
}

/// The selected pairs re-serialized, one token each.
pub open spec fn selected_tokens(m: Seq<(Seq<u8>, Seq<u8>)>, fields: Seq<Seq<u8>>) -> Seq<Seq<u8>> {
    selected_pairs(m, fields).map_values(|p: (Seq<u8>, Seq<u8>)| kv_token(p.0, p.1))
}

/// The projected body of one raw record: its selected tokens joined with the
/// field delimiter.
pub open spec fn projected_body(line: Seq<u8>, fields: Seq<Seq<u8>>) -> Seq<u8> {
    join_tokens(selected_tokens(record_fields(line), fields), FIELD_SEP)
}

/// The full projected line of one raw record: the body with the line
/// terminator appended.
pub open spec fn projected_line(line: Seq<u8>, fields: Seq<Seq<u8>>) -> Seq<u8> {
    projected_body(line, fields) + seq![LINE_END]
}

/// Selection distributes over concatenation of the selected names.
pub proof fn lemma_selected_pairs_append(
    m: Seq<(Seq<u8>, Seq<u8>)>,
    a: Seq<Seq<u8>>,
    b: Seq<Seq<u8>>,
)
    ensures
        selected_pairs(m, a + b) == selected_pairs(m, a) + selected_pairs(m, b),
    decreases a.len(),
{
    if a.len() == 0 {
        assert(a + b =~= b);
        assert(selected_pairs(m, a) + selected_pairs(m, b) =~= selected_pairs(m, b));
    } else {
        assert((a + b).first() == a.first());
        assert((a + b).drop_first() =~= a.drop_first() + b);
        lemma_selected_pairs_append(m, a.drop_first(), b);
        match field_lookup(m, a.first()) {
            Some(v) => {
                assert(seq![(a.first(), v)] + (selected_pairs(m, a.drop_first()) + selected_pairs(
                    m,
                    b,
                )) =~= (seq![(a.first(), v)] + selected_pairs(m, a.drop_first())) + selected_pairs(
                    m,
                    b,
                ));
            }
            None => {}
        }
    }
}

/// Selecting a single name yields its pair, or nothing.
pub proof fn lemma_selected_pairs_one(m: Seq<(Seq<u8>, Seq<u8>)>, k: Seq<u8>)
    ensures
        selected_pairs(m, seq![k]) == match field_lookup(m, k) {
            Some(v) => seq![(k, v)],
            None => Seq::<(Seq<u8>, Seq<u8>)>::empty(),
        },
{
    assert(seq![k].drop_first() =~= Seq::<Seq<u8>>::empty());
    assert(selected_pairs(m, Seq::<Seq<u8>>::empty()) =~= Seq::<(Seq<u8>, Seq<u8>)>::empty());
    match field_lookup(m, k) {
        Some(v) => {
            assert(selected_pairs(m, seq![k]) =~= seq![(k, v)]);
        }
        None => {}
    }
}

/// The selected (name, value) pairs of a parsed record, in selection order.
pub fn select_fields(pairs: &Vec<(Vec<u8>, Vec<u8>)>, fields: &Vec<Vec<u8>>) -> (r: Vec<
    (Vec<u8>, Vec<u8>),
>)
    ensures
        views_of_pairs(r@) == selected_pairs(views_of_pairs(pairs@), views_of(fields@)),
{
    let ghost m = views_of_pairs(pairs@);
    let ghost fv = views_of(fields@);
    let mut r: Vec<(Vec<u8>, Vec<u8>)> = Vec::new();
    let mut i: usize = 0;
    proof {
        assert(fv.take(0) =~= Seq::<Seq<u8>>::empty());
        assert(views_of_pairs(r@) =~= Seq::<(Seq<u8>, Seq<u8>)>::empty());
        assert(selected_pairs(m, Seq::<Seq<u8>>::empty()) =~= Seq::<(Seq<u8>, Seq<u8>)>::empty());
    }
    while i < fields.len()
        invariant
            i <= fields@.len(),
            m == views_of_pairs(pairs@),
            fv == views_of(fields@),
            views_of_pairs(r@) == selected_pairs(m, fv.take(i as int)),
        decreases fields@.len() - i,
    {
        proof {
            assert(fv.take(i + 1) =~= fv.take(i as int) + seq![fv[i as int]]);
            lemma_selected_pairs_append(m, fv.take(i as int), seq![fv[i as int]]);
            lemma_selected_pairs_one(m, fv[i as int]);
            assert(fv[i as int] == fields@[i as int]@);
        }
        match field_lookup_exec(pairs, &fields[i]) {
            Some(v) => {
                let name = clone_bytes(&fields[i]);
                let ghost pv = (name@, v@);
                r.push((name, v));
                proof {
                    assert(views_of_pairs(r@) =~= views_of_pairs(r@.drop_last()) + seq![pv]);
                    assert(views_of_pairs(r@) =~= selected_pairs(m, fv.take(i + 1)));
                }
            }
            None => {
                proof {
                    assert(views_of_pairs(r@) =~= selected_pairs(m, fv.take(i + 1)));
                }
            }
        }
        i = i + 1;
    }
    proof {
        assert(fv.take(fields@.len() as int) =~= fv);
    }
    r
}

/// The projected body of a parsed record: the selected tokens, delimiter-joined,
/// in selection order.
pub fn assemble_body(pairs: &Vec<(Vec<u8>, Vec<u8>)>, fields: &Vec<Vec<u8>>) -> (out: Vec<u8>)
    ensures
        out@ == join_tokens(selected_tokens(views_of_pairs(pairs@), views_of(fields@)), FIELD_SEP),
{
    let ghost m = views_of_pairs(pairs@);
    let ghost fv = views_of(fields@);
    let mut out: Vec<u8> = Vec::new();
    let mut first: bool = true;
    let mut i: usize = 0;
    proof {
        assert(fv.take(0) =~= Seq::<Seq<u8>>::empty());
        assert(selected_pairs(m, Seq::<Seq<u8>>::empty()) =~= Seq::<(Seq<u8>, Seq<u8>)>::empty());
        assert(selected_tokens(m, fv.take(0)) =~= Seq::<Seq<u8>>::empty());
    }
    while i < fields.len()
        invariant
            i <= fields@.len(),
            m == views_of_pairs(pairs@),
            fv == views_of(fields@),
            out@ == join_tokens(selected_tokens(m, fv.take(i as int)), FIELD_SEP),
            first == (selected_tokens(m, fv.take(i as int)).len() == 0),
        decreases fields@.len() - i,
    {
        let ghost st = selected_tokens(m, fv.take(i as int));
        proof {
            assert(fv.take(i + 1) =~= fv.take(i as int) + seq![fv[i as int]]);
            lemma_selected_pairs_append(m, fv.take(i as int), seq![fv[i as int]]);
            lemma_selected_pairs_one(m, fv[i as int]);
            assert(fv[i as int] == fields@[i as int]@);
        }
        match field_lookup_exec(pairs, &fields[i]) {
            Some(v) => {
                let ghost tok = kv_token(fields@[i as int]@, v@);
                proof {
                    assert(selected_pairs(m, fv.take(i + 1)) =~= selected_pairs(
                        m,
                        fv.take(i as int),
                    ).push((fv[i as int], v@)));
                    assert(selected_tokens(m, fv.take(i + 1)) =~= st.push(tok));
                    lemma_join_tokens_push(st, tok, FIELD_SEP);
                }
                if !first {
                    out.push(FIELD_SEP);
                }
                append_bytes(&mut out, &fields[i]);
                out.push(ASSIGN);
                append_bytes(&mut out, &v);
                proof {
                    if st.len() == 0 {
                        assert(out@ =~= tok);
                    } else {
                        assert(out@ =~= join_tokens(st, FIELD_SEP) + seq![FIELD_SEP] + tok);
                    }
                }
                first = false;
            }
            None => {
                proof {
                    assert(selected_pairs(m, fv.take(i + 1)) =~= selected_pairs(
                        m,
                        fv.take(i as int),
                    ));
                    assert(selected_tokens(m, fv.take(i + 1)) =~= st);
                }
            }
        }
        i = i + 1;
    }
    proof {
        assert(fv.take(fields@.len() as int) =~= fv);
    }
    out
}

/// The full projected line of one raw record.
pub fn project_record(line: &Vec<u8>, fields: &Vec<Vec<u8>>) -> (out: Vec<u8>)
    ensures
        out@ == projected_line(line@, views_of(fields@)),
{
    let pairs = parse_record(line);
    let mut out = assemble_body(&pairs, fields);
    out.push(LINE_END);
    proof {
        assert(out@ =~= projected_body(line@, views_of(fields@)) + seq![LINE_END]);
    }
    out
}

/// What the projector hands downstream for one record: the projected line at
/// the full depth, nothing at any truncated depth.
pub open spec fn spec_process(line: Seq<u8>, fields: Seq<Seq<u8>>, d: Depth) -> Option<Seq<u8>> {
    if d.level() >= 6 {
        Some(projected_line(line, fields))
    } else {
        None
    }
}

/// One record through the projector: every stage up to `depth` runs, each
/// deeper stage strictly adding to the shallower ones, and only the full
/// depth yields a line.  Parsing never fails: malformed tokens are dropped.
pub fn process_record(line: &Vec<u8>, fields: &Vec<Vec<u8>>, depth: Depth) -> (r: Option<Vec<u8>>)
    ensures
        r matches Some(v) ==> spec_process(line@, views_of(fields@), depth) == Some(v@),
        r is None ==> spec_process(line@, views_of(fields@), depth) is None,
{
    let n = depth.stage();
    if n <= 1 {
        return None;
    }
    let pairs = parse_record(line);
    if n <= 2 {
        return None;
    }
    let picked = select_fields(&pairs, fields);
    if n <= 3 {
        return None;
    }
    let mut out = assemble_body(&picked, fields);
    proof {
        let m = views_of_pairs(pairs@);
        let fv = views_of(fields@);
        assert forall|j: int| 0 <= j < fv.len() implies fv.contains(#[trigger] fv[j]) by {
            assert(fv[j] == fv[j]);
        }
        crate::stable::lemma_selected_pairs_stable(m, fv, fv);
    }
    if n <= 4 {
        return None;
    }
    out.push(LINE_END);
    if n <= 5 {
        return None;
    }
    proof {
        assert(out@ =~= projected_line(line@, views_of(fields@)));
    }
    Some(out)
}

} // verus!
