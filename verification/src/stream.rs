//! The single-threaded reference: one input stream processed record by
//! record, strictly in order.  Its result is the yardstick the concurrent
//! pipeline is proved against.

use vstd::prelude::*;

use crate::bytes::views_of;
use crate::depth::Depth;
use crate::project::{process_record, projected_line, spec_process};

verus! {

/// The lines a full run over one input stream emits: at the full depth, each
/// record's projected line in input order; at any truncated depth, nothing.
pub open spec fn spec_outputs(lines: Seq<Seq<u8>>, fields: Seq<Seq<u8>>, d: Depth) -> Seq<Seq<u8>> {
    if d.level() >= 6 {
        lines.map_values(|l: Seq<u8>| projected_line(l, fields))
    } else {
        Seq::<Seq<u8>>::empty()
    }
}

/// Truncation is silent: at any depth short of the full one, a run emits no
/// output at all, whatever the input holds.
pub proof fn lemma_truncated_silent(lines: Seq<Seq<u8>>, fields: Seq<Seq<u8>>, d: Depth)
    requires
        d.level() < 6,
    ensures
        spec_outputs(lines, fields, d) == Seq::<Seq<u8>>::empty(),
{
}

/// The reference run: records processed one at a time, in order, with the
/// depth gate applied to each.
pub fn project_stream(lines: &Vec<Vec<u8>>, fields: &Vec<Vec<u8>>, depth: Depth) -> (out: Vec<
    Vec<u8>,
>)
    ensures
        views_of(out@) == spec_outputs(views_of(lines@), views_of(fields@), depth),
{
    let ghost lv = views_of(lines@);
    let ghost fv = views_of(fields@);
    let mut out: Vec<Vec<u8>> = Vec::new();
    let mut i: usize = 0;
    proof {
        assert(views_of(out@) =~= spec_outputs(lv.take(0), fv, depth));
    }
    while i < lines.len()
        invariant
            i <= lines@.len(),
            lv == views_of(lines@),
            fv == views_of(fields@),
            views_of(out@) == spec_outputs(lv.take(i as int), fv, depth),
        decreases lines@.len() - i,
    {
        let r = process_record(&lines[i], fields, depth);
        proof {
            assert(lines@[i as int]@ == lv[i as int]);
        }
        match r {
            Some(line) => {
                let ghost linev = line@;
                proof {
                    assert(depth.level() >= 6);
                    assert(linev == projected_line(lv[i as int], fv));
                }
                out.push(line);
                proof {
                    assert(views_of(out@) =~= views_of(out@.drop_last()).push(linev));
                    assert(lv.take(i + 1) =~= lv.take(i as int).push(lv[i as int]));
                    assert(spec_outputs(lv.take(i + 1), fv, depth) =~= spec_outputs(
                        lv.take(i as int),
                        fv,
                        depth,
                    ).push(linev));
                    assert(views_of(out@) =~= spec_outputs(lv.take(i + 1), fv, depth));
                }
            }
            None => {
                proof {
                    assert(views_of(out@) =~= spec_outputs(lv.take(i + 1), fv, depth));
                }
            }
        }
        i = i + 1;
    }
    proof {
        assert(lv.take(lines@.len() as int) =~= lv);
    }
    out
}

} // verus!
