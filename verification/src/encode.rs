//! The conceptual inverse transform: a mathematical encoder that lays any
//! document out as a chunk table, and the proof that decoding such a table
//! yields the document back.  Nothing here is executable — the library only
//! decodes — but the round trip pins the decoder's semantics down.

use vstd::prelude::*;
use crate::json::JVal;
use crate::decode::{
    DecodeError, is_push_head, lemma_obj_insert_absent, obj_insert, spec_decode,
    spec_decode_elems, spec_decode_pairs, spec_decode_pairs_from, spec_jump, spec_resolve,
    spec_root,
};
use crate::scan::{all_digits, digit_val, digits_to_int, is_digit, is_tagged, tagged_value};

verus! {

broadcast use vstd::seq::group_seq_axioms;

/// The character of one decimal digit.
pub open spec fn digit_char(d: int) -> char {
    if d == 0 {
        '0'
    } else if d == 1 {
        '1'
    } else if d == 2 {
        '2'
    } else if d == 3 {
        '3'
    } else if d == 4 {
        '4'
    } else if d == 5 {
        '5'
    } else if d == 6 {
        '6'
    } else if d == 7 {
        '7'
    } else if d == 8 {
        '8'
    } else {
        '9'
    }
}

/// The decimal rendering of a non-negative number, most significant first.
pub open spec fn int_to_digits(n: nat) -> Seq<char>
    decreases n,
{
    if n < 10 {
        seq![digit_char(n as int)]
    } else {
        int_to_digits(n / 10) + seq![digit_char(n as int % 10)]
    }
}

/// Rendering a number and reading it back is the identity.
pub proof fn lemma_digits_round_trip(n: nat)
    ensures
        int_to_digits(n).len() >= 1,
        all_digits(int_to_digits(n)),
        digits_to_int(int_to_digits(n)) == n,
    decreases n,
{
    if n < 10 {
        let s = int_to_digits(n);
        assert(s.drop_last() =~= Seq::<char>::empty());
        assert(digits_to_int(Seq::<char>::empty()) == 0);
        assert(s.last() == digit_char(n as int));
        assert(is_digit(digit_char(n as int)) && digit_val(digit_char(n as int)) == n);
    } else {
        lemma_digits_round_trip(n / 10);
        let a = int_to_digits(n / 10);
        let s = a + seq![digit_char(n as int % 10)];
        assert(s.drop_last() =~= a);
        assert(s.last() == digit_char(n as int % 10));
    }
}

/// How many chunks the encoding of `v` takes.
pub open spec fn enc_size(v: JVal) -> nat
    decreases v, 1int,
{
    match v {
        JVal::Arr(es) => 1 + list_size(es),
        JVal::Obj(ps) => 1 + pairs_size(ps),
        _ => 1,
    }
}

/// Total size of the encodings of a list of values.
pub open spec fn list_size(es: Seq<JVal>) -> nat
    decreases es, 0int,
{
    if es.len() == 0 {
        0
    } else {
        enc_size(es[0]) + list_size(es.subrange(1, es.len() as int))
    }
}

/// Total size of the encodings of the pairs of an object: one key chunk and
/// one value encoding per pair.
pub open spec fn pairs_size(ps: Seq<(Seq<char>, JVal)>) -> nat
    decreases ps, 0int,
{
    if ps.len() == 0 {
        0
    } else {
        1 + enc_size(ps[0].1) + pairs_size(ps.subrange(1, ps.len() as int))
    }
}

/// The chunks that encode `v`, the root chunk first, laid out so that the
/// root sits at absolute index `at`.  An array's elements and an object's
/// keys and values move into chunks of their own, reached by references.
pub open spec fn enc(v: JVal, at: int) -> Seq<JVal>
    decreases v, 1int,
{
    match v {
        JVal::Arr(es) => seq![JVal::Arr(enc_refs(es, at + 1))] + enc_list(es, at + 1),
        JVal::Obj(ps) => seq![JVal::Obj(enc_pair_refs(ps, at + 1))] + enc_pairs_list(ps, at + 1),
        _ => seq![v],
    }
}

/// The reference elements of an encoded array: one integer per element,
/// naming the absolute index where that element's encoding starts.
pub open spec fn enc_refs(es: Seq<JVal>, at: int) -> Seq<JVal>
    decreases es, 0int,
{
    if es.len() == 0 {
        Seq::empty()
    } else {
        seq![JVal::Int(at as i64)] + enc_refs(
            es.subrange(1, es.len() as int),
            at + enc_size(es[0]),
        )
    }
}

/// The concatenated encodings of a list of values, the first placed at `at`.
pub open spec fn enc_list(es: Seq<JVal>, at: int) -> Seq<JVal>
    decreases es, 0int,
{
    if es.len() == 0 {
        Seq::empty()
    } else {
        enc(es[0], at) + enc_list(es.subrange(1, es.len() as int), at + enc_size(es[0]))
    }
}

/// The pairs of an encoded object: the key `_<digits>` names the chunk that
/// holds the key string, the value is a reference to the chunk after it.
pub open spec fn enc_pair_refs(ps: Seq<(Seq<char>, JVal)>, at: int) -> Seq<(Seq<char>, JVal)>
    decreases ps, 0int,
{
    if ps.len() == 0 {
        Seq::empty()
    } else {
        seq![(seq!['_'] + int_to_digits(at as nat), JVal::Int((at + 1) as i64))] + enc_pair_refs(
            ps.subrange(1, ps.len() as int),
            at + 1 + enc_size(ps[0].1),
        )
    }
}

/// The concatenated key chunks and value encodings of an object's pairs.
pub open spec fn enc_pairs_list(ps: Seq<(Seq<char>, JVal)>, at: int) -> Seq<JVal>
    decreases ps, 0int,
{
    if ps.len() == 0 {
        Seq::empty()
    } else {
        seq![JVal::Str(ps[0].0)] + enc(ps[0].1, at + 1) + enc_pairs_list(
            ps.subrange(1, ps.len() as int),
            at + 1 + enc_size(ps[0].1),
        )
    }
}

/// The chunk table that encodes a whole document.
pub open spec fn encode(doc: JVal) -> Seq<JVal> {
    enc(doc, 0)
}

/// A well-formed document: every object binds each key once.  Decoded
/// objects are genuine mappings (a later duplicate rebinds the key), so
/// only such documents can round-trip unchanged.
pub open spec fn distinct_keys(v: JVal) -> bool
    decreases v,
{
    match v {
        JVal::Arr(es) => forall|i: int| 0 <= i < es.len() ==> distinct_keys(#[trigger] es[i]),
        JVal::Obj(ps) => (forall|i: int, j: int|
            0 <= i < j < ps.len() ==> (#[trigger] ps[i]).0 != (#[trigger] ps[j]).0) && (forall|
            i: int,
        |
            0 <= i < ps.len() ==> distinct_keys((#[trigger] ps[i]).1)),
        _ => true,
    }
}

/// An encoding takes exactly as many chunks as its size says.
pub proof fn lemma_enc_len(v: JVal, at: int)
    ensures
        enc(v, at).len() == enc_size(v),
    decreases v, 1int,
{
    match v {
        JVal::Arr(es) => {
            lemma_enc_list_len(es, at + 1);
        },
        JVal::Obj(ps) => {
            lemma_enc_pairs_list_len(ps, at + 1);
        },
        _ => {},
    }
}

proof fn lemma_enc_list_len(es: Seq<JVal>, at: int)
    ensures
        enc_list(es, at).len() == list_size(es),
    decreases es, 0int,
{
    if es.len() > 0 {
        lemma_enc_len(es[0], at);
        lemma_enc_list_len(es.subrange(1, es.len() as int), at + enc_size(es[0]));
    }
}

proof fn lemma_enc_pairs_list_len(ps: Seq<(Seq<char>, JVal)>, at: int)
    ensures
        enc_pairs_list(ps, at).len() == pairs_size(ps),
    decreases ps, 0int,
{
    if ps.len() > 0 {
        lemma_enc_len(ps[0].1, at + 1);
        lemma_enc_pairs_list_len(ps.subrange(1, ps.len() as int), at + 1 + enc_size(ps[0].1));
    }
}

/// Decoding an encoding embedded in a larger table yields the encoded value
/// back, whatever else the table holds.
pub proof fn lemma_enc_decode(table: Seq<JVal>, v: JVal, at: int, fuel: nat)
    requires
        0 <= at,
        at + enc_size(v) <= table.len(),
        table.len() <= i64::MAX,
        table.subrange(at, at + enc_size(v)) == enc(v, at),
        fuel >= enc_size(v),
        distinct_keys(v),
    ensures
        spec_decode(table, table[at], fuel) == Result::<JVal, DecodeError>::Ok(v),
    decreases v, 1int,
{
    lemma_enc_len(v, at);
    assert(table[at] == table.subrange(at, at + enc_size(v))[0]);
    match v {
        JVal::Arr(es) => {
            assert(table[at] == JVal::Arr(enc_refs(es, at + 1)));
            lemma_enc_list_len(es, at + 1);
            assert(table.subrange(at + 1, at + 1 + list_size(es)) =~= enc_list(es, at + 1)) by {
                assert forall|j: int| 0 <= j < list_size(es) implies #[trigger] table.subrange(
                    at + 1,
                    at + 1 + list_size(es),
                )[j] == enc_list(es, at + 1)[j] by {
                    assert(table.subrange(at, at + enc_size(v))[j + 1] == enc(v, at)[j + 1]);
                }
            }
            if es.len() == 0 {
                assert(enc_refs(es, at + 1) =~= Seq::<JVal>::empty());
            } else {
                assert(!is_push_head(enc_refs(es, at + 1)[0]));
            }
            lemma_enc_elems(table, es, at + 1, fuel);
        },
        JVal::Obj(ps) => {
            assert(table[at] == JVal::Obj(enc_pair_refs(ps, at + 1)));
            lemma_enc_pairs_list_len(ps, at + 1);
            assert(table.subrange(at + 1, at + 1 + pairs_size(ps)) =~= enc_pairs_list(
                ps,
                at + 1,
            )) by {
                assert forall|j: int| 0 <= j < pairs_size(ps) implies #[trigger] table.subrange(
                    at + 1,
                    at + 1 + pairs_size(ps),
                )[j] == enc_pairs_list(ps, at + 1)[j] by {
                    assert(table.subrange(at, at + enc_size(v))[j + 1] == enc(v, at)[j + 1]);
                }
            }
            lemma_enc_pairs(table, ps, at + 1, fuel, Seq::empty());
            assert(Seq::<(Seq<char>, JVal)>::empty() + ps =~= ps);
        },
        _ => {
            assert(table[at] == v);
        },
    }
}

/// Decoding the reference row of an encoded array yields the elements back.
proof fn lemma_enc_elems(table: Seq<JVal>, es: Seq<JVal>, at: int, fuel: nat)
    requires
        0 <= at,
        at + list_size(es) <= table.len(),
        table.len() <= i64::MAX,
        table.subrange(at, at + list_size(es)) == enc_list(es, at),
        fuel >= 1 + list_size(es),
        forall|i: int| 0 <= i < es.len() ==> distinct_keys(#[trigger] es[i]),
    ensures
        spec_decode_elems(table, enc_refs(es, at), fuel) == Result::<Seq<JVal>, DecodeError>::Ok(
            es,
        ),
    decreases es, 0int,
{
    if es.len() == 0 {
        assert(enc_refs(es, at) =~= Seq::<JVal>::empty());
        assert(es =~= Seq::<JVal>::empty());
    } else {
        let sz = enc_size(es[0]);
        let rest = es.subrange(1, es.len() as int);
        lemma_enc_len(es[0], at);
        lemma_enc_list_len(es, at);
        lemma_enc_list_len(rest, at + sz);
        let refs = enc_refs(es, at);
        assert(refs[0] == JVal::Int(at as i64));
        // the head reference resolves to `at` and the chunk there decodes
        // to the head element
        assert(spec_resolve(Some(at as i64), table.len()) == Result::<int, DecodeError>::Ok(at));
        assert(table.subrange(at, at + sz) =~= enc(es[0], at)) by {
            assert forall|j: int| 0 <= j < sz implies #[trigger] table.subrange(at, at + sz)[j]
                == enc(es[0], at)[j] by {
                assert(table.subrange(at, at + list_size(es))[j] == enc_list(es, at)[j]);
            }
        }
        lemma_enc_decode(table, es[0], at, (fuel - 1) as nat);
        assert(spec_jump(table, refs[0], fuel) == Result::<JVal, DecodeError>::Ok(es[0]));
        // the tail references decode to the tail elements
        assert(table.subrange(at + sz, at + sz + list_size(rest)) =~= enc_list(rest, at + sz))
            by {
            assert forall|j: int| 0 <= j < list_size(rest) implies #[trigger] table.subrange(
                at + sz,
                at + sz + list_size(rest),
            )[j] == enc_list(rest, at + sz)[j] by {
                assert(table.subrange(at, at + list_size(es))[j + sz] == enc_list(es, at)[j + sz]);
            }
        }
        lemma_enc_elems(table, rest, at + sz, fuel);
        assert(refs.subrange(1, refs.len() as int) =~= enc_refs(rest, at + sz));
        assert(seq![es[0]] + rest =~= es);
    }
}

/// Decoding the pair row of an encoded object, on top of pairs already
/// decoded whose keys are all different, appends the pairs unchanged.
proof fn lemma_enc_pairs(
    table: Seq<JVal>,
    ps: Seq<(Seq<char>, JVal)>,
    at: int,
    fuel: nat,
    acc: Seq<(Seq<char>, JVal)>,
)
    requires
        0 <= at,
        at + pairs_size(ps) <= table.len(),
        table.len() <= i64::MAX,
        table.subrange(at, at + pairs_size(ps)) == enc_pairs_list(ps, at),
        fuel >= 1 + pairs_size(ps),
        forall|i: int, j: int| 0 <= i < j < ps.len() ==> (#[trigger] ps[i]).0 != (#[trigger] ps[j]).0,
        forall|i: int| 0 <= i < ps.len() ==> distinct_keys((#[trigger] ps[i]).1),
        forall|m: int, i: int|
            0 <= m < acc.len() && 0 <= i < ps.len() ==> (#[trigger] acc[m]).0 != (
            #[trigger] ps[i]).0,
    ensures
        spec_decode_pairs_from(table, enc_pair_refs(ps, at), fuel, acc) == Result::<
            Seq<(Seq<char>, JVal)>,
            DecodeError,
        >::Ok(acc + ps),
    decreases ps, 0int,
{
    if ps.len() == 0 {
        assert(enc_pair_refs(ps, at) =~= Seq::<(Seq<char>, JVal)>::empty());
        assert(acc + ps =~= acc);
    } else {
        let sz = enc_size(ps[0].1);
        let rest = ps.subrange(1, ps.len() as int);
        lemma_enc_len(ps[0].1, at + 1);
        lemma_enc_pairs_list_len(ps, at);
        lemma_enc_pairs_list_len(rest, at + 1 + sz);
        let refs = enc_pair_refs(ps, at);
        let label = seq!['_'] + int_to_digits(at as nat);
        assert(refs[0] == (label, JVal::Int((at + 1) as i64)));
        // the label is a well-formed key index naming position `at`
        lemma_digits_round_trip(at as nat);
        assert(label.subrange(1, label.len() as int) =~= int_to_digits(at as nat));
        assert(is_tagged(label, '_'));
        assert(tagged_value(label) == at);
        assert(spec_resolve(Some(at as i64), table.len()) == Result::<int, DecodeError>::Ok(at));
        // the key chunk holds the key string
        assert(table[at] == table.subrange(at, at + pairs_size(ps))[0]);
        assert(table[at] == JVal::Str(ps[0].0));
        // the value reference resolves to `at + 1` and decodes to the value
        assert(spec_resolve(Some((at + 1) as i64), table.len()) == Result::<
            int,
            DecodeError,
        >::Ok(at + 1));
        assert(table.subrange(at + 1, at + 1 + sz) =~= enc(ps[0].1, at + 1)) by {
            assert forall|j: int| 0 <= j < sz implies #[trigger] table.subrange(
                at + 1,
                at + 1 + sz,
            )[j] == enc(ps[0].1, at + 1)[j] by {
                assert(table.subrange(at, at + pairs_size(ps))[j + 1] == enc_pairs_list(
                    ps,
                    at,
                )[j + 1]);
            }
        }
        lemma_enc_decode(table, ps[0].1, at + 1, (fuel - 1) as nat);
        assert(spec_jump(table, refs[0].1, fuel) == Result::<JVal, DecodeError>::Ok(ps[0].1));
        // the first pair's key is new to the mapping, so it is appended
        assert(forall|m: int| 0 <= m < acc.len() ==> (#[trigger] acc[m]).0 != ps[0].0);
        lemma_obj_insert_absent(acc, ps[0].0, ps[0].1);
        let acc2 = acc.push((ps[0].0, ps[0].1));
        assert(obj_insert(acc, table[at]->Str_0, ps[0].1) == acc2);
        // the tail pairs decode to the tail of the object
        assert(table.subrange(at + 1 + sz, at + 1 + sz + pairs_size(rest)) =~= enc_pairs_list(
            rest,
            at + 1 + sz,
        )) by {
            assert forall|j: int| 0 <= j < pairs_size(rest) implies #[trigger] table.subrange(
                at + 1 + sz,
                at + 1 + sz + pairs_size(rest),
            )[j] == enc_pairs_list(rest, at + 1 + sz)[j] by {
                assert(table.subrange(at, at + pairs_size(ps))[j + 1 + sz] == enc_pairs_list(
                    ps,
                    at,
                )[j + 1 + sz]);
            }
        }
        assert(forall|m1: int, m2: int|
            0 <= m1 < m2 < rest.len() ==> (#[trigger] rest[m1]).0 != (#[trigger] rest[m2]).0);
        assert(forall|m: int, i: int|
            0 <= m < acc2.len() && 0 <= i < rest.len() ==> (#[trigger] acc2[m]).0 != (
            #[trigger] rest[i]).0);
        lemma_enc_pairs(table, rest, at + 1 + sz, fuel, acc2);
        assert(refs.subrange(1, refs.len() as int) =~= enc_pair_refs(rest, at + 1 + sz));
        assert(acc2 + rest =~= acc + ps);
    }
}

/// Round trip: encoding a document (the conceptual inverse transform) and
/// decoding the resulting chunk table yields the document back, for every
/// document whose encoding fits the machine's index range.
pub proof fn lemma_round_trip(doc: JVal)
    requires
        enc_size(doc) <= i64::MAX,
        distinct_keys(doc),
    ensures
        spec_root(encode(doc)) == Result::<JVal, DecodeError>::Ok(doc),
{
    let t = encode(doc);
    lemma_enc_len(doc, 0);
    assert(t.subrange(0, enc_size(doc) as int) =~= enc(doc, 0));
    lemma_enc_decode(t, doc, 0, t.len());
    assert(enc_size(doc) >= 1) by {
        match doc {
            JVal::Arr(_) => {},
            JVal::Obj(_) => {},
            _ => {},
        }
    }
}

} // verus!
