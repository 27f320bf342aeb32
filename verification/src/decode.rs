//! The decoding engine: index resolution, patch-line application, and the
//! recursive resolution of chunk 0 into a fully dereferenced value.

use vstd::prelude::*;
use vstd::pervasive::VecAdditionalExecFns;
use vstd::slice::{slice_index_get, slice_subrange};
use crate::json::{Json, JVal, clone_json, pairs_view, table_view};
use crate::parse::{parse_chunk_array, parse_chunks};
use crate::scan::{
    colon_from, find_colon, is_blank, is_tagged, parse_tagged, spec_blank, tagged_value, trim_str,
    trimmed,
};

verus! {

broadcast use vstd::std_specs::vec::group_vec_axioms, vstd::seq::group_seq_axioms;

/// Why a decode failed.  Every error aborts the whole decode.
#[derive(Debug, Clone, Copy, PartialEq, Eq, Structural)]
pub enum DecodeError {
    /// A line expected to be a JSON array is not one.
    MalformedInput,
    /// A patch line lacks a colon or its label is not `P<digits>`.
    MalformedPatchLine,
    /// A reference position holds something other than a usable integer.
    InvalidIndex,
    /// A resolved index falls outside the table.
    IndexOutOfBounds,
    /// A patch label names a chunk that is not a two-element array.
    InvalidPlaceholder,
    /// An object key is not `_<digits>`.
    InvalidKeyIndex,
    /// An object key's index names a chunk that is not a string.
    NotAString,
    /// A reference chain is longer than the table, hence cyclic.
    DepthExceeded,
}

/// The reference index a chunk can act as: what `as_i64` yields on the
/// number forms, nothing on everything else.
pub open spec fn as_ref_index(v: JVal) -> Option<i64> {
    match v {
        JVal::Int(i) => Some(i),
        JVal::BigUint(u) => if u <= i64::MAX as u64 {
            Some(u as i64)
        } else {
            None
        },
        _ => None,
    }
}

/// Index resolution against a table of length `len`: a missing or unusable
/// integer is invalid; a non-negative `i` must satisfy `i < len`; a negative
/// `i` counts from the end and must satisfy `-i <= len`.
pub open spec fn spec_resolve(idx: Option<i64>, len: nat) -> Result<int, DecodeError> {
    match idx {
        Option::None => Result::Err(DecodeError::InvalidIndex),
        Option::Some(i) => {
            if i >= 0 {
                if (i as int) < len as int {
                    Result::Ok(i as int)
                } else {
                    Result::Err(DecodeError::IndexOutOfBounds)
                }
            } else {
                if -(i as int) <= len as int {
                    Result::Ok(len as int - -(i as int))
                } else {
                    Result::Err(DecodeError::IndexOutOfBounds)
                }
            }
        },
    }
}

/// Exact executable mirror of [`spec_resolve`].
pub fn resolve_index(idx: Option<i64>, len: usize) -> (r: Result<usize, DecodeError>)
    ensures
        match (r, spec_resolve(idx, len as nat)) {
            (Result::Ok(u), Result::Ok(v)) => u as int == v,
            (Result::Err(a), Result::Err(b)) => a == b,
            _ => false,
        },
{
    match idx {
        Option::None => Result::Err(DecodeError::InvalidIndex),
        Option::Some(i) => {
            if i >= 0 {
                if (i as u64) < (len as u64) {
                    Result::Ok(i as usize)
                } else {
                    Result::Err(DecodeError::IndexOutOfBounds)
                }
            } else {
                let m: u64 = if i == i64::MIN {
                    9223372036854775808u64
                } else {
                    (-i) as u64
                };
                if m <= (len as u64) {
                    Result::Ok(len - (m as usize))
                } else {
                    Result::Err(DecodeError::IndexOutOfBounds)
                }
            }
        },
    }
}

/// The string `"P"`, the push-marker head.
pub open spec fn is_push_head(v: JVal) -> bool {
    v matches JVal::Str(s) && s.len() == 1 && s[0] == 'P'
}

/// A chunk that reads as a number (and is therefore a reference when it
/// stands inside an array or as an object value).
pub open spec fn is_number(v: JVal) -> bool {
    v matches JVal::Int(_) || v matches JVal::BigUint(_) || v matches JVal::NumText(_)
}

/// Dereference `r`: resolve it as an index and decode the chunk there.
/// Each dereference spends one unit of fuel; running out means the
/// reference chain is longer than the table, hence cyclic.
pub open spec fn spec_jump(table: Seq<JVal>, r: JVal, fuel: nat) -> Result<JVal, DecodeError>
    decreases fuel, r, 1int,
{
    match spec_resolve(as_ref_index(r), table.len()) {
        Result::Err(e) => Result::Err(e),
        Result::Ok(idx) => {
            if fuel == 0 {
                Result::Err(DecodeError::DepthExceeded)
            } else {
                spec_decode(table, table[idx], (fuel - 1) as nat)
            }
        },
    }
}

/// Decode one fragment against the table: arrays and objects are resolved
/// recursively, every other value stands for itself.
pub open spec fn spec_decode(table: Seq<JVal>, frag: JVal, fuel: nat) -> Result<JVal, DecodeError>
    decreases fuel, frag, 4int,
{
    match frag {
        JVal::Arr(es) => spec_decode_arr(table, es, fuel),
        JVal::Obj(ps) => spec_decode_obj(table, ps, fuel),
        _ => Result::Ok(frag),
    }
}

/// Decode an array fragment.  A push marker (the string `"P"` in position
/// 0) short-circuits: the result is the decoded chunk that the second
/// element points at, and everything else in the array is discarded.
pub open spec fn spec_decode_arr(table: Seq<JVal>, es: Seq<JVal>, fuel: nat) -> Result<
    JVal,
    DecodeError,
>
    decreases fuel, es, 3int,
{
    if es.len() > 0 && is_push_head(es[0]) {
        if es.len() < 2 {
            Result::Err(DecodeError::InvalidIndex)
        } else {
            spec_jump(table, es[1], fuel)
        }
    } else {
        match spec_decode_elems(table, es, fuel) {
            Result::Ok(vs) => Result::Ok(JVal::Arr(vs)),
            Result::Err(e) => Result::Err(e),
        }
    }
}

/// Decode array elements in order: a number is a reference to follow, any
/// other element is decoded as a nested fragment.
pub open spec fn spec_decode_elems(table: Seq<JVal>, es: Seq<JVal>, fuel: nat) -> Result<
    Seq<JVal>,
    DecodeError,
>
    decreases fuel, es, 2int,
{
    if es.len() == 0 {
        Result::Ok(Seq::empty())
    } else {
        let h = if is_number(es[0]) {
            spec_jump(table, es[0], fuel)
        } else {
            spec_decode(table, es[0], fuel)
        };
        match h {
            Result::Err(e) => Result::Err(e),
            Result::Ok(hv) => match spec_decode_elems(
                table,
                es.subrange(1, es.len() as int),
                fuel,
            ) {
                Result::Err(e) => Result::Err(e),
                Result::Ok(tv) => Result::Ok(seq![hv] + tv),
            },
        }
    }
}

/// Decode an object fragment: the pairs, in order, wrapped up as an object.
pub open spec fn spec_decode_obj(
    table: Seq<JVal>,
    ps: Seq<(Seq<char>, JVal)>,
    fuel: nat,
) -> Result<JVal, DecodeError>
    decreases fuel, ps, 4int,
{
    match spec_decode_pairs(table, ps, fuel) {
        Result::Ok(out) => Result::Ok(JVal::Obj(out)),
        Result::Err(e) => Result::Err(e),
    }
}

/// Insert one decoded pair into the output mapping: a key already bound is
/// rebound, in place, to the new value (the later pair wins); a new key
/// goes to the end.  This makes the decoded object a genuine mapping.
pub open spec fn obj_insert(
    acc: Seq<(Seq<char>, JVal)>,
    k: Seq<char>,
    v: JVal,
) -> Seq<(Seq<char>, JVal)>
    decreases acc,
{
    if acc.len() == 0 {
        seq![(k, v)]
    } else if acc[0].0 == k {
        seq![(k, v)] + acc.subrange(1, acc.len() as int)
    } else {
        seq![acc[0]] + obj_insert(acc.subrange(1, acc.len() as int), k, v)
    }
}

/// Decode object pairs in order on top of the pairs decoded so far.  A key
/// must be `_<digits>`, naming the chunk that holds the real key string;
/// the value must be a reference to the chunk holding the real value; a
/// pair whose key string is already bound rebinds it to the later value.
pub open spec fn spec_decode_pairs_from(
    table: Seq<JVal>,
    ps: Seq<(Seq<char>, JVal)>,
    fuel: nat,
    acc: Seq<(Seq<char>, JVal)>,
) -> Result<Seq<(Seq<char>, JVal)>, DecodeError>
    decreases fuel, ps, 2int,
    via pairs_decreases
{
    if ps.len() == 0 {
        Result::Ok(acc)
    } else if !is_tagged(ps[0].0, '_') {
        Result::Err(DecodeError::InvalidKeyIndex)
    } else if tagged_value(ps[0].0) > i64::MAX {
        Result::Err(DecodeError::InvalidIndex)
    } else {
        match spec_resolve(Some(tagged_value(ps[0].0) as i64), table.len()) {
            Result::Err(e) => Result::Err(e),
            Result::Ok(ki) => {
                if !(table[ki] matches JVal::Str(_)) {
                    Result::Err(DecodeError::NotAString)
                } else {
                    match spec_jump(table, ps[0].1, fuel) {
                        Result::Err(e) => Result::Err(e),
                        Result::Ok(v) => spec_decode_pairs_from(
                            table,
                            ps.subrange(1, ps.len() as int),
                            fuel,
                            obj_insert(acc, table[ki]->Str_0, v),
                        ),
                    }
                }
            },
        }
    }
}

/// Decode an object's pairs, starting from an empty mapping.
pub open spec fn spec_decode_pairs(
    table: Seq<JVal>,
    ps: Seq<(Seq<char>, JVal)>,
    fuel: nat,
) -> Result<Seq<(Seq<char>, JVal)>, DecodeError>
    decreases fuel, ps, 3int,
{
    spec_decode_pairs_from(table, ps, fuel, Seq::empty())
}

#[via_fn]
proof fn pairs_decreases(
    table: Seq<JVal>,
    ps: Seq<(Seq<char>, JVal)>,
    fuel: nat,
    acc: Seq<(Seq<char>, JVal)>,
) {
    if ps.len() > 0 {
        assert(decreases_to!(ps => ps[0]));
        assert(decreases_to!(ps[0] => ps[0].1));
    }
}

/// Rebinding a key that is nowhere in the mapping appends the pair.
pub proof fn lemma_obj_insert_absent(acc: Seq<(Seq<char>, JVal)>, k: Seq<char>, v: JVal)
    requires
        forall|m: int| 0 <= m < acc.len() ==> (#[trigger] acc[m]).0 != k,
    ensures
        obj_insert(acc, k, v) == acc.push((k, v)),
    decreases acc,
{
    if acc.len() == 0 {
        assert(obj_insert(acc, k, v) =~= acc.push((k, v)));
    } else {
        lemma_obj_insert_absent(acc.subrange(1, acc.len() as int), k, v);
        assert(seq![acc[0]] + acc.subrange(1, acc.len() as int).push((k, v)) =~= acc.push(
            (k, v),
        ));
    }
}

/// Rebinding a key bound at position `j` updates that position in place.
pub proof fn lemma_obj_insert_found(acc: Seq<(Seq<char>, JVal)>, k: Seq<char>, v: JVal, j: int)
    requires
        0 <= j < acc.len(),
        acc[j].0 == k,
        forall|m: int| 0 <= m < j ==> (#[trigger] acc[m]).0 != k,
    ensures
        obj_insert(acc, k, v) == acc.update(j, (k, v)),
    decreases acc,
{
    if j == 0 {
        assert(seq![(k, v)] + acc.subrange(1, acc.len() as int) =~= acc.update(0, (k, v)));
    } else {
        let rest = acc.subrange(1, acc.len() as int);
        lemma_obj_insert_found(rest, k, v, j - 1);
        assert(seq![acc[0]] + rest.update(j - 1, (k, v)) =~= acc.update(j, (k, v)));
    }
}

/// Insert one decoded pair into the output mapping; mirrors [`obj_insert`].
#[verifier::loop_isolation(false)]
fn obj_insert_vec(out: &mut Vec<(String, Json)>, key: String, val: Json)
    ensures
        pairs_view(final(out)@) == obj_insert(pairs_view(old(out)@), key@, val.view()),
{
    let ghost acc0 = pairs_view(old(out)@);
    let mut j: usize = 0;
    while j < out.len()
        invariant
            j <= out@.len(),
            out@ == old(out)@,
            forall|m: int| 0 <= m < j as int ==> (#[trigger] acc0[m]).0 != key@,
        decreases out@.len() - j,
    {
        if out[j].0 == key {
            proof {
                lemma_obj_insert_found(acc0, key@, val.view(), j as int);
            }
            let ghost jj = j as int;
            out.set(j, (key, val));
            proof {
                assert(pairs_view(out@) =~= acc0.update(jj, (key@, val.view())));
            }
            return ;
        }
        j = j + 1;
    }
    proof {
        lemma_obj_insert_absent(acc0, key@, val.view());
    }
    out.push((key, val));
    proof {
        assert(pairs_view(out@) =~= acc0.push((key@, val.view())));
    }
}

/// The chunk written into a placeholder's second slot: the table length as
/// a JSON integer.
pub open spec fn int_chunk(n: nat) -> JVal {
    if n <= i64::MAX as nat {
        JVal::Int(n as i64)
    } else {
        JVal::BigUint(n as u64)
    }
}

/// Apply one patch line `P<digits>:<json-array>` to the table: the label
/// resolves (against the table length before the append) to a placeholder
/// chunk, which must be a two-element array; its second element is
/// overwritten with the current table length; the payload, trimmed, must be
/// a JSON array, whose elements are appended.
pub open spec fn spec_apply_patch(table: Seq<JVal>, line: Seq<char>) -> Result<
    Seq<JVal>,
    DecodeError,
> {
    match colon_from(line, 0) {
        Option::None => Result::Err(DecodeError::MalformedPatchLine),
        Option::Some(c) => {
            let label = trimmed(line.subrange(0, c));
            if !is_tagged(label, 'P') {
                Result::Err(DecodeError::MalformedPatchLine)
            } else if tagged_value(label) > i64::MAX {
                Result::Err(DecodeError::InvalidIndex)
            } else {
                match spec_resolve(Some(tagged_value(label) as i64), table.len()) {
                    Result::Err(e) => Result::Err(e),
                    Result::Ok(idx) => {
                        if !(table[idx] matches JVal::Arr(es) && es.len() == 2) {
                            Result::Err(DecodeError::InvalidPlaceholder)
                        } else {
                            match parse_chunks(trimmed(line.subrange(c + 1, line.len() as int))) {
                                Option::None => Result::Err(DecodeError::MalformedInput),
                                Option::Some(extra) => Result::Ok(
                                    table.update(
                                        idx,
                                        JVal::Arr(
                                            seq![
                                                table[idx]->Arr_0[0],
                                                int_chunk(table.len()),
                                            ],
                                        ),
                                    ) + extra,
                                ),
                            }
                        }
                    },
                }
            }
        },
    }
}

/// Apply the patch lines from position `i` on, stopping at the first blank
/// line or at the end of input.
pub open spec fn spec_apply_lines(table: Seq<JVal>, lines: Seq<Seq<char>>, i: int) -> Result<
    Seq<JVal>,
    DecodeError,
>
    decreases lines.len() - i,
{
    if i < 0 || i >= lines.len() {
        Result::Ok(table)
    } else if spec_blank(lines[i]) {
        Result::Ok(table)
    } else {
        match spec_apply_patch(table, lines[i]) {
            Result::Err(e) => Result::Err(e),
            Result::Ok(t2) => spec_apply_lines(t2, lines, i + 1),
        }
    }
}

/// Load the chunk table: parse the first line, trimmed, as a JSON array,
/// then apply the patch lines up to the first blank one.
pub open spec fn spec_load(lines: Seq<Seq<char>>) -> Result<Seq<JVal>, DecodeError> {
    let first = if lines.len() == 0 {
        Seq::<char>::empty()
    } else {
        lines[0]
    };
    match parse_chunks(trimmed(first)) {
        Option::None => Result::Err(DecodeError::MalformedInput),
        Option::Some(t0) => spec_apply_lines(t0, lines, 1),
    }
}

/// Decode chunk 0 of a loaded table.  The fuel equals the table length: an
/// acyclic reference chain can never be longer, so only a cyclic table
/// exhausts it.
pub open spec fn spec_root(t: Seq<JVal>) -> Result<JVal, DecodeError> {
    if t.len() == 0 {
        Result::Err(DecodeError::IndexOutOfBounds)
    } else {
        spec_decode(t, t[0], t.len())
    }
}

/// The whole pipeline on the input lines: load, patch, decode chunk 0.
pub open spec fn spec_document(lines: Seq<Seq<char>>) -> Result<JVal, DecodeError> {
    match spec_load(lines) {
        Result::Err(e) => Result::Err(e),
        Result::Ok(t) => spec_root(t),
    }
}

/// Apply one patch line to the table; mirrors [`spec_apply_patch`].  On an
/// error the table is left as it was.
pub fn apply_patch_line(table: &mut Vec<Json>, line: &str) -> (r: Result<(), DecodeError>)
    ensures
        match r {
            Result::Ok(_) => spec_apply_patch(table_view(old(table)@), line@) == Result::<
                Seq<JVal>,
                DecodeError,
            >::Ok(table_view(final(table)@)),
            Result::Err(e) => spec_apply_patch(table_view(old(table)@), line@) == Result::<
                Seq<JVal>,
                DecodeError,
            >::Err(e) && final(table)@ == old(table)@,
        },
{
    let ghost t0 = table_view(table@);
    let c = match find_colon(line) {
        Option::None => {
            return Result::Err(DecodeError::MalformedPatchLine);
        },
        Option::Some(c) => c,
    };
    let label_part = line.substring_char(0, c);
    let label = trim_str(label_part);
    let v = match parse_tagged(label, 'P') {
        Option::None => {
            return Result::Err(DecodeError::MalformedPatchLine);
        },
        Option::Some(Option::None) => {
            return Result::Err(DecodeError::InvalidIndex);
        },
        Option::Some(Option::Some(v)) => v,
    };
    let idx = match resolve_index(Some(v), table.len()) {
        Result::Err(e) => {
            return Result::Err(e);
        },
        Result::Ok(idx) => idx,
    };
    let first = match &table[idx] {
        Json::Arr(es) => {
            if es.len() != 2 {
                proof {
                    assert(t0[idx as int] matches JVal::Arr(s) && s.len() == es@.len());
                }
                return Result::Err(DecodeError::InvalidPlaceholder);
            }
            proof {
                assert(t0[idx as int] matches JVal::Arr(s) && s.len() == 2 && s[0] == es@[0].view());
            }
            clone_json(&es[0])
        },
        _ => {
            return Result::Err(DecodeError::InvalidPlaceholder);
        },
    };
    let ghost firstv = first.view();
    let n = line.unicode_len();
    let payload = trim_str(line.substring_char(c + 1, n));
    let extra = match parse_chunk_array(payload) {
        Option::None => {
            return Result::Err(DecodeError::MalformedInput);
        },
        Option::Some(x) => x,
    };
    let len_before = table.len();
    let second = if (len_before as u64) <= 9223372036854775807u64 {
        Json::Int(len_before as i64)
    } else {
        Json::BigUint(len_before as u64)
    };
    proof {
        assert(second.view() == int_chunk(t0.len()));
    }
    let mut ph: Vec<Json> = Vec::new();
    ph.push(first);
    ph.push(second);
    proof {
        assert(Json::Arr(ph).view() matches JVal::Arr(s) && s =~= seq![
            firstv,
            int_chunk(t0.len()),
        ]);
    }
    let ghost extra0 = extra@;
    table.set(idx, Json::Arr(ph));
    let mut extra_moved = extra;
    table.append(&mut extra_moved);
    proof {
        assert(table_view(table@) =~= t0.update(
            idx as int,
            JVal::Arr(seq![firstv, int_chunk(t0.len())]),
        ) + table_view(extra0));
    }
    Result::Ok(())
}

/// A decode outcome seen at the mathematical level.
pub open spec fn rview(r: Result<Json, DecodeError>) -> Result<JVal, DecodeError> {
    match r {
        Result::Ok(j) => Result::Ok(j.view()),
        Result::Err(e) => Result::Err(e),
    }
}

/// The decoder: a chunk table, loaded once and grown by patch lines, then
/// read by the decode pass.
pub struct Decoder {
    /// The chunk table.
    pub table: Vec<Json>,
}

/// The reference index a chunk can act as; mirrors [`as_ref_index`].
fn ref_index_of(v: &Json) -> (r: Option<i64>)
    ensures
        r == as_ref_index(v.view()),
{
    match v {
        Json::Int(i) => Some(*i),
        Json::BigUint(u) => {
            if *u <= 9223372036854775807u64 {
                Some(*u as i64)
            } else {
                None
            }
        },
        _ => None,
    }
}

/// Whether the chunk is the push-marker string; mirrors [`is_push_head`].
fn is_push_head_exec(v: &Json) -> (r: bool)
    ensures
        r == is_push_head(v.view()),
{
    match v {
        Json::Str(s) => s.as_str().unicode_len() == 1 && s.as_str().get_char(0) == 'P',
        _ => false,
    }
}

/// Whether the chunk reads as a number; mirrors [`is_number`].
fn is_number_exec(v: &Json) -> (r: bool)
    ensures
        r == is_number(v.view()),
{
    match v {
        Json::Int(_) => true,
        Json::BigUint(_) => true,
        Json::NumText(_) => true,
        _ => false,
    }
}

impl Decoder {
    /// The mathematical table this decoder works on.
    pub open spec fn tview(self) -> Seq<JVal> {
        table_view(self.table@)
    }

    /// Resolve a candidate reference index against the current table
    /// length, as [`spec_resolve`] says.
    pub fn decode_index(&self, idx: Option<i64>) -> (r: Result<usize, DecodeError>)
        ensures
            match (r, spec_resolve(idx, self.tview().len())) {
                (Result::Ok(u), Result::Ok(v)) => u as int == v,
                (Result::Err(a), Result::Err(b)) => a == b,
                _ => false,
            },
    {
        resolve_index(idx, self.table.len())
    }

    /// Dereference `r`; mirrors [`spec_jump`].
    fn decode_jump(&self, r: &Json, fuel: u64) -> (out: Result<Json, DecodeError>)
        ensures
            rview(out) == spec_jump(self.tview(), r.view(), fuel as nat),
        decreases fuel, *r, 1int,
    {
        match resolve_index(ref_index_of(r), self.table.len()) {
            Result::Err(e) => Result::Err(e),
            Result::Ok(idx) => {
                if fuel == 0 {
                    Result::Err(DecodeError::DepthExceeded)
                } else {
                    self.decode_fragment(&self.table[idx], fuel - 1)
                }
            },
        }
    }

    /// Decode one fragment against the current table; mirrors
    /// [`spec_decode`].
    pub fn decode_fragment(&self, frag: &Json, fuel: u64) -> (out: Result<Json, DecodeError>)
        ensures
            rview(out) == spec_decode(self.tview(), frag.view(), fuel as nat),
        decreases fuel, *frag, 0int,
    {
        match frag {
            Json::Arr(es) => {
                proof {
                    assert(*frag == Json::Arr(*es));
                    assert(decreases_to!(Json::Arr(*es) => *es));
                    assert(decreases_to!(*es => es@));
                    assert(frag.view() matches JVal::Arr(s) && s =~= table_view(es@));
                }
                self.decode_array(es.as_slice(), fuel)
            },
            Json::Obj(ps) => {
                proof {
                    assert(*frag == Json::Obj(*ps));
                    assert(decreases_to!(Json::Obj(*ps) => *ps));
                    assert(decreases_to!(*ps => ps@));
                    assert(frag.view() matches JVal::Obj(s) && s =~= pairs_view(ps@));
                }
                match self.decode_pairs(ps.as_slice(), fuel) {
                    Result::Ok(out) => {
                        proof {
                            assert(Json::Obj(out).view() matches JVal::Obj(s) && s =~= pairs_view(
                                out@,
                            ));
                        }
                        Result::Ok(Json::Obj(out))
                    },
                    Result::Err(e) => Result::Err(e),
                }
            },
            _ => Result::Ok(clone_json(frag)),
        }
    }

    /// Decode an array fragment; mirrors [`spec_decode_arr`].
    fn decode_array(&self, es: &[Json], fuel: u64) -> (out: Result<Json, DecodeError>)
        ensures
            rview(out) == spec_decode_arr(self.tview(), table_view(es@), fuel as nat),
        decreases fuel, es@, 3int,
    {
        if es.len() > 0 && is_push_head_exec(slice_index_get(es, 0)) {
            if es.len() < 2 {
                Result::Err(DecodeError::InvalidIndex)
            } else {
                proof {
                    assert(decreases_to!(es@ => es@[1]));
                }
                self.decode_jump(slice_index_get(es, 1), fuel)
            }
        } else {
            match self.decode_elems(es, fuel) {
                Result::Ok(vs) => {
                    proof {
                        assert(spec_decode_arr(self.tview(), table_view(es@), fuel as nat)
                            == Result::<JVal, DecodeError>::Ok(JVal::Arr(table_view(vs@))));
                        assert(Json::Arr(vs).view() matches JVal::Arr(s) && s =~= table_view(vs@));
                    }
                    Result::Ok(Json::Arr(vs))
                },
                Result::Err(e) => Result::Err(e),
            }
        }
    }

    /// Decode array elements in order; mirrors [`spec_decode_elems`].
    fn decode_elems(&self, es: &[Json], fuel: u64) -> (out: Result<Vec<Json>, DecodeError>)
        ensures
            match out {
                Result::Ok(v) => spec_decode_elems(self.tview(), table_view(es@), fuel as nat)
                    == Result::<Seq<JVal>, DecodeError>::Ok(table_view(v@)),
                Result::Err(e) => spec_decode_elems(self.tview(), table_view(es@), fuel as nat)
                    == Result::<Seq<JVal>, DecodeError>::Err(e),
            },
        decreases fuel, es@, 2int,
    {
        if es.len() == 0 {
            proof {
                assert(table_view(es@) =~= Seq::<JVal>::empty());
            }
            let out: Vec<Json> = Vec::new();
            proof {
                assert(table_view(out@) =~= Seq::<JVal>::empty());
            }
            Result::Ok(out)
        } else {
            let head = slice_index_get(es, 0);
            proof {
                assert(decreases_to!(es@ => es@[0]));
            }
            let h = if is_number_exec(head) {
                self.decode_jump(head, fuel)
            } else {
                self.decode_fragment(head, fuel)
            };
            match h {
                Result::Err(e) => Result::Err(e),
                Result::Ok(hv) => {
                    let rest = slice_subrange(es, 1, es.len());
                    proof {
                        assert(table_view(rest@) =~= table_view(es@).subrange(
                            1,
                            es@.len() as int,
                        ));
                    }
                    match self.decode_elems(rest, fuel) {
                        Result::Err(e) => Result::Err(e),
                        Result::Ok(tv) => {
                            let mut out: Vec<Json> = Vec::new();
                            out.push(hv);
                            let mut tail = tv;
                            let ghost tail0 = tail@;
                            out.append(&mut tail);
                            proof {
                                assert(table_view(out@) =~= seq![out@[0].view()] + table_view(
                                    tail0,
                                ));
                            }
                            Result::Ok(out)
                        },
                    }
                },
            }
        }
    }

    /// Decode object pairs in order into a mapping; mirrors
    /// [`spec_decode_pairs`]: a later pair whose key string is already
    /// bound rebinds it in place.
    #[verifier::loop_isolation(false)]
    fn decode_pairs(&self, ps: &[(String, Json)], fuel: u64) -> (out: Result<
        Vec<(String, Json)>,
        DecodeError,
    >)
        ensures
            match out {
                Result::Ok(v) => spec_decode_pairs(self.tview(), pairs_view(ps@), fuel as nat)
                    == Result::<Seq<(Seq<char>, JVal)>, DecodeError>::Ok(pairs_view(v@)),
                Result::Err(e) => spec_decode_pairs(self.tview(), pairs_view(ps@), fuel as nat)
                    == Result::<Seq<(Seq<char>, JVal)>, DecodeError>::Err(e),
            },
        decreases fuel, ps@, 2int,
    {
        let ghost psv = pairs_view(ps@);
        let mut out: Vec<(String, Json)> = Vec::new();
        let mut i: usize = 0;
        proof {
            assert(psv.subrange(0, psv.len() as int) =~= psv);
            assert(pairs_view(out@) =~= Seq::<(Seq<char>, JVal)>::empty());
        }
        while i < ps.len()
            invariant
                i <= ps@.len(),
                spec_decode_pairs_from(self.tview(), psv, fuel as nat, Seq::empty())
                    == spec_decode_pairs_from(
                    self.tview(),
                    psv.subrange(i as int, psv.len() as int),
                    fuel as nat,
                    pairs_view(out@),
                ),
            decreases ps@.len() - i,
        {
            let pair = slice_index_get(ps, i);
            proof {
                assert(psv.subrange(i as int, psv.len() as int)[0] == psv[i as int]);
            }
            let ki = match parse_tagged(pair.0.as_str(), '_') {
                Option::None => {
                    return Result::Err(DecodeError::InvalidKeyIndex);
                },
                Option::Some(Option::None) => {
                    return Result::Err(DecodeError::InvalidIndex);
                },
                Option::Some(Option::Some(v)) => match resolve_index(Some(v), self.table.len()) {
                    Result::Err(e) => {
                        return Result::Err(e);
                    },
                    Result::Ok(ki) => ki,
                },
            };
            let key: String = match &self.table[ki] {
                Json::Str(s) => {
                    proof {
                        assert(self.table@[ki as int] == Json::Str(*s));
                        assert(self.tview()[ki as int] == JVal::Str(s@));
                    }
                    s.clone()
                },
                _ => {
                    return Result::Err(DecodeError::NotAString);
                },
            };
            proof {
                assert(decreases_to!(ps@ => ps@[i as int]));
                assert(decreases_to!(ps@[i as int] => ps@[i as int].1));
            }
            let val = match self.decode_jump(&pair.1, fuel) {
                Result::Err(e) => {
                    return Result::Err(e);
                },
                Result::Ok(v) => v,
            };
            let ghost acc0 = pairs_view(out@);
            let ghost keyv = key@;
            let ghost valv = val.view();
            obj_insert_vec(&mut out, key, val);
            proof {
                assert(psv.subrange(i as int, psv.len() as int).subrange(
                    1,
                    psv.subrange(i as int, psv.len() as int).len() as int,
                ) =~= psv.subrange(i as int + 1, psv.len() as int));
                assert(spec_decode_pairs_from(
                    self.tview(),
                    psv.subrange(i as int, psv.len() as int),
                    fuel as nat,
                    acc0,
                ) == spec_decode_pairs_from(
                    self.tview(),
                    psv.subrange(i as int + 1, psv.len() as int),
                    fuel as nat,
                    obj_insert(acc0, keyv, valv),
                ));
            }
            i = i + 1;
        }
        proof {
            assert(psv.subrange(psv.len() as int, psv.len() as int) =~= Seq::<
                (Seq<char>, JVal),
            >::empty());
        }
        Result::Ok(out)
    }

    /// Load the chunk table from the input lines: the first line is the
    /// initial table, the following lines are patches, and the first blank
    /// line (or the end of input) stops patch processing.  Mirrors
    /// [`spec_load`].
    pub fn new(lines: &Vec<String>) -> (r: Result<Decoder, DecodeError>)
        ensures
            match r {
                Result::Ok(d) => spec_load(lines.deep_view()) == Result::<
                    Seq<JVal>,
                    DecodeError,
                >::Ok(d.tview()),
                Result::Err(e) => spec_load(lines.deep_view()) == Result::<
                    Seq<JVal>,
                    DecodeError,
                >::Err(e),
            },
    {
        let ghost ls = lines.deep_view();
        let first: &str = if lines.len() == 0 {
            ""
        } else {
            lines[0].as_str()
        };
        proof {
            reveal_strlit("");
            if lines@.len() == 0 {
                assert(first@ =~= Seq::<char>::empty());
            } else {
                assert(first@ == ls[0]);
            }
        }
        let t = match parse_chunk_array(trim_str(first)) {
            Option::None => {
                return Result::Err(DecodeError::MalformedInput);
            },
            Option::Some(t) => t,
        };
        let mut d = Decoder { table: t };
        let ghost t0v = d.tview();
        let mut i: usize = 1;
        while i < lines.len() && !is_blank(lines[i].as_str())
            invariant
                1 <= i,
                lines@.len() == 0 ==> i == 1,
                ls == lines.deep_view(),
                spec_load(ls) == spec_apply_lines(d.tview(), ls, i as int),
            decreases lines@.len() - i as int,
        {
            proof {
                assert(ls[i as int] == lines@[i as int]@);
            }
            match apply_patch_line(&mut d.table, lines[i].as_str()) {
                Result::Err(e) => {
                    return Result::Err(e);
                },
                Result::Ok(_) => {},
            }
            i = i + 1;
        }
        proof {
            if i < lines@.len() {
                assert(ls[i as int] == lines@[i as int]@);
                assert(spec_blank(ls[i as int]));
            }
            assert(spec_apply_lines(d.tview(), ls, i as int) == Result::<
                Seq<JVal>,
                DecodeError,
            >::Ok(d.tview()));
        }
        Result::Ok(d)
    }

    /// Decode chunk 0 against the loaded table; mirrors [`spec_root`].
    pub fn decode_root(&self) -> (out: Result<Json, DecodeError>)
        ensures
            rview(out) == spec_root(self.tview()),
    {
        if self.table.len() == 0 {
            Result::Err(DecodeError::IndexOutOfBounds)
        } else {
            self.decode_fragment(&self.table[0], self.table.len() as u64)
        }
    }
}

/// Decode a whole document: load the table from the input lines, apply the
/// patch lines, and resolve chunk 0.  Mirrors [`spec_document`].
pub fn decode_document(lines: &Vec<String>) -> (r: Result<Json, DecodeError>)
    ensures
        rview(r) == spec_document(lines.deep_view()),
{
    match Decoder::new(lines) {
        Result::Err(e) => Result::Err(e),
        Result::Ok(d) => d.decode_root(),
    }
}

} // verus!
