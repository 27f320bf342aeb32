//! Unit tests for index resolution, the decoder parts, and patch
//! application through the finer-grained public interface.

use refjson::{apply_patch_line, resolve_index, DecodeError, Decoder, Json};

fn lines(v: &[&str]) -> Vec<String> {
    v.iter().map(|s| s.to_string()).collect()
}

fn s(t: &str) -> String {
    t.to_string()
}

#[test]
fn resolve_non_negative_in_bounds() {
    assert_eq!(resolve_index(Some(0), 3), Ok(0));
    assert_eq!(resolve_index(Some(2), 3), Ok(2));
}

#[test]
fn resolve_non_negative_out_of_bounds() {
    assert_eq!(resolve_index(Some(3), 3), Err(DecodeError::IndexOutOfBounds));
    assert_eq!(resolve_index(Some(0), 0), Err(DecodeError::IndexOutOfBounds));
}

#[test]
fn resolve_negative_from_end() {
    // For a table of length 5: -1 names the last chunk, -5 the first, and
    // -6 is out of bounds.
    assert_eq!(resolve_index(Some(-1), 5), Ok(4));
    assert_eq!(resolve_index(Some(-5), 5), Ok(0));
    assert_eq!(resolve_index(Some(-6), 5), Err(DecodeError::IndexOutOfBounds));
}

#[test]
fn resolve_missing_index() {
    assert_eq!(resolve_index(None, 5), Err(DecodeError::InvalidIndex));
}

#[test]
fn resolve_extreme_negative() {
    assert_eq!(
        resolve_index(Some(i64::MIN), 100),
        Err(DecodeError::IndexOutOfBounds)
    );
}

#[test]
fn decoder_exposes_table_and_fragment_decoding() {
    let d = Decoder::new(&lines(&["[0,\"a\",\"b\"]"])).unwrap();
    assert_eq!(d.table.len(), 3);
    let frag = Json::Arr(vec![Json::Int(1), Json::Int(2)]);
    let r = d.decode_fragment(&frag, 10).unwrap();
    assert_eq!(r, Json::Arr(vec![Json::Str(s("a")), Json::Str(s("b"))]));
}

#[test]
fn decoder_decode_index_uses_table_length() {
    let d = Decoder::new(&lines(&["[1,2,3,4]"])).unwrap();
    assert_eq!(d.decode_index(Some(-1)), Ok(3));
    assert_eq!(d.decode_index(Some(4)), Err(DecodeError::IndexOutOfBounds));
}

#[test]
fn two_keys_resolving_to_one_string_keep_it_once() {
    // Distinct input keys "_0" and "_00" both name chunk 0, so both decode
    // to the key string "k"; the decoded object binds "k" exactly once, to
    // the value of the later pair.
    let d = Decoder::new(&lines(&["[\"k\",\"a\",\"b\"]"])).unwrap();
    let frag = Json::Obj(vec![
        (s("_0"), Json::Int(1)),
        (s("_00"), Json::Int(2)),
    ]);
    let r = d.decode_fragment(&frag, 10).unwrap();
    assert_eq!(r, Json::Obj(vec![(s("k"), Json::Str(s("b")))]));
}

#[test]
fn patch_rewires_placeholder_to_old_length() {
    // Table of length 2; the patch writes 2 into the placeholder's second
    // slot and appends its payload after the old end.
    let mut table = vec![
        Json::Arr(vec![Json::Str(s("P")), Json::Int(1)]),
        Json::Int(0),
    ];
    let r = apply_patch_line(&mut table, "P0:[42,43]");
    assert_eq!(r, Ok(()));
    assert_eq!(
        table,
        vec![
            Json::Arr(vec![Json::Str(s("P")), Json::Int(2)]),
            Json::Int(0),
            Json::Int(42),
            Json::Int(43),
        ]
    );
}

#[test]
fn patch_error_leaves_table_unchanged() {
    let mut table = vec![Json::Int(0)];
    let r = apply_patch_line(&mut table, "P0:[42]");
    assert_eq!(r, Err(DecodeError::InvalidPlaceholder));
    assert_eq!(table, vec![Json::Int(0)]);
}

#[test]
fn patch_resolves_negative_labels() {
    // The label index goes through the same resolution rule as data
    // references, so P<digits> can only be non-negative; a negative index
    // reaches the placeholder through the table contents instead.
    let mut table = vec![
        Json::Int(7),
        Json::Arr(vec![Json::Str(s("P")), Json::Int(0)]),
    ];
    let r = apply_patch_line(&mut table, "P1:[\"x\"]");
    assert_eq!(r, Ok(()));
    assert_eq!(table[1], Json::Arr(vec![Json::Str(s("P")), Json::Int(2)]));
    assert_eq!(table[2], Json::Str(s("x")));
}

#[test]
fn same_negative_index_moves_with_growth() {
    // Before the patch, -1 in the root would name chunk 1; after the patch
    // appends a chunk, -1 names chunk 2: negative indices are read against
    // the table length at resolution time.
    let r = refjson::decode_document(&lines(&["[[-1],[\"P\",0]]", "P1:[\"new\"]", ""])).unwrap();
    assert_eq!(r, Json::Arr(vec![Json::Str(s("new"))]));
}
