//! General properties of the decoder, stated and proved once and for all:
//! literal tables decode to themselves, negative indices resolve from the
//! end, push markers short-circuit, and patches only grow the table.

use vstd::prelude::*;
use crate::json::JVal;
use crate::decode::{
    DecodeError, as_ref_index, int_chunk, is_number, is_push_head, spec_apply_lines,
    spec_apply_patch, spec_decode, spec_decode_arr, spec_decode_elems, spec_jump, spec_resolve,
    spec_root,
};
use crate::scan::spec_blank;

verus! {

broadcast use vstd::seq::group_seq_axioms;

/// A value whose decoding touches no reference: scalars, and arrays of such
/// values that contain no number (a number inside an array is a reference)
/// and no push marker at their head.  Objects always go through references,
/// so none is literal.
pub open spec fn literal_only(v: JVal) -> bool
    decreases v,
{
    match v {
        JVal::Obj(_) => false,
        JVal::Arr(es) => (es.len() == 0 || !is_push_head(es[0])) && (forall|i: int|
            0 <= i < es.len() ==> !is_number(#[trigger] es[i]) && literal_only(es[i])),
        _ => true,
    }
}

/// A table with no references in its root chunk decodes to that chunk
/// itself, structurally identical, whatever the rest of the table holds and
/// whatever the fuel.
pub proof fn lemma_literal_decode(table: Seq<JVal>, v: JVal, fuel: nat)
    requires
        literal_only(v),
    ensures
        spec_decode(table, v, fuel) == Result::<JVal, DecodeError>::Ok(v),
    decreases v, 1int,
{
    match v {
        JVal::Arr(es) => {
            lemma_literal_elems(table, es, fuel);
            assert(spec_decode_arr(table, es, fuel) == Result::<JVal, DecodeError>::Ok(
                JVal::Arr(es),
            ));
        },
        _ => {},
    }
}

proof fn lemma_literal_elems(table: Seq<JVal>, es: Seq<JVal>, fuel: nat)
    requires
        forall|i: int| 0 <= i < es.len() ==> !is_number(#[trigger] es[i]) && literal_only(es[i]),
    ensures
        spec_decode_elems(table, es, fuel) == Result::<Seq<JVal>, DecodeError>::Ok(es),
    decreases es, 0int,
{
    if es.len() == 0 {
        assert(spec_decode_elems(table, es, fuel) == Result::<Seq<JVal>, DecodeError>::Ok(
            Seq::<JVal>::empty(),
        ));
        assert(es =~= Seq::<JVal>::empty());
    } else {
        lemma_literal_decode(table, es[0], fuel);
        lemma_literal_elems(table, es.subrange(1, es.len() as int), fuel);
        assert(seq![es[0]] + es.subrange(1, es.len() as int) =~= es);
    }
}

/// The root form of the law above: decoding chunk 0 of a literal-only table
/// reproduces chunk 0 exactly.
pub proof fn lemma_literal_root(t: Seq<JVal>)
    requires
        t.len() >= 1,
        literal_only(t[0]),
    ensures
        spec_root(t) == Result::<JVal, DecodeError>::Ok(t[0]),
{
    lemma_literal_decode(t, t[0], t.len());
}

/// Negative-index resolution against a table of length `len`: `-1` resolves
/// to `len - 1`, `-len` resolves to `0`, and `-(len + 1)` is out of bounds.
pub proof fn lemma_negative_index_resolution(len: i64)
    requires
        1 <= len < i64::MAX,
    ensures
        spec_resolve(Some(-1 as i64), len as nat) == Result::<int, DecodeError>::Ok(
            len as int - 1,
        ),
        spec_resolve(Some((-len) as i64), len as nat) == Result::<int, DecodeError>::Ok(0int),
        spec_resolve(Some((-(len + 1)) as i64), len as nat) == Result::<int, DecodeError>::Err(
            DecodeError::IndexOutOfBounds,
        ),
{
}

/// Push-marker short-circuit: an array whose head is the string `"P"` (and
/// that has a second element) decodes to exactly the decoded value of the
/// chunk its second element resolves to; every other element of the array
/// is discarded.  When the second element does not resolve, that resolution
/// error is the array's result.
pub proof fn lemma_push_marker_short_circuit(table: Seq<JVal>, es: Seq<JVal>, fuel: nat)
    requires
        es.len() >= 2,
        is_push_head(es[0]),
    ensures
        spec_decode(table, JVal::Arr(es), fuel) == spec_jump(table, es[1], fuel),
        match spec_resolve(as_ref_index(es[1]), table.len()) {
            Result::Ok(r) => fuel > 0 ==> spec_decode(table, JVal::Arr(es), fuel) == spec_decode(
                table,
                table[r],
                (fuel - 1) as nat,
            ),
            Result::Err(e) => spec_decode(table, JVal::Arr(es), fuel) == Result::<
                JVal,
                DecodeError,
            >::Err(e),
        },
{
}

/// One successful patch only grows the table: the payload is appended after
/// the old end, every chunk but the placeholder is untouched, and the
/// placeholder's second slot receives the table length at the moment the
/// patch was processed.
pub proof fn lemma_patch_growth(table: Seq<JVal>, line: Seq<char>, t2: Seq<JVal>)
    requires
        spec_apply_patch(table, line) == Result::<Seq<JVal>, DecodeError>::Ok(t2),
    ensures
        t2.len() >= table.len(),
        exists|idx: int|
            0 <= idx < table.len() && #[trigger] t2[idx] == JVal::Arr(
                seq![table[idx]->Arr_0[0], int_chunk(table.len())],
            ) && (forall|j: int| 0 <= j < table.len() && j != idx ==> t2[j] == table[j]),
{
    let c = crate::scan::colon_from(line, 0)->0;
    let label = crate::scan::trimmed(line.subrange(0, c));
    let idx = spec_resolve(Some(crate::scan::tagged_value(label) as i64), table.len())->Ok_0;
    assert(0 <= idx < table.len());
    assert(t2[idx] == JVal::Arr(seq![table[idx]->Arr_0[0], int_chunk(table.len())]));
    assert(forall|j: int| 0 <= j < table.len() && j != idx ==> t2[j] == table[j]);
}

/// Over a run of patch lines, applied in the given order, the table length
/// never decreases: each patch appends its chunks at strictly increasing
/// indices.
pub proof fn lemma_patches_monotone(
    table: Seq<JVal>,
    lines: Seq<Seq<char>>,
    i: int,
    t2: Seq<JVal>,
)
    requires
        spec_apply_lines(table, lines, i) == Result::<Seq<JVal>, DecodeError>::Ok(t2),
    ensures
        t2.len() >= table.len(),
    decreases lines.len() - i,
{
    if i < 0 || i >= lines.len() || spec_blank(lines[i]) {
    } else {
        let m = spec_apply_patch(table, lines[i]);
        if m is Ok {
            lemma_patch_growth(table, lines[i], m->Ok_0);
            lemma_patches_monotone(m->Ok_0, lines, i + 1, t2);
        }
    }
}

} // verus!
