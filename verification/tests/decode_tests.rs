//! End-to-end decoding tests through the public document interface.

use refjson::{decode_document, DecodeError, Json};

fn lines(v: &[&str]) -> Vec<String> {
    v.iter().map(|s| s.to_string()).collect()
}

fn s(t: &str) -> String {
    t.to_string()
}

#[test]
fn literal_scalar_chunk() {
    let r = decode_document(&lines(&["[\"hello\"]"])).unwrap();
    assert_eq!(r, Json::Str(s("hello")));
}

#[test]
fn literal_array_chunk() {
    let r = decode_document(&lines(&["[[\"a\", true, null]]"])).unwrap();
    assert_eq!(
        r,
        Json::Arr(vec![Json::Str(s("a")), Json::Bool(true), Json::Null])
    );
}

#[test]
fn number_root_chunk_is_itself() {
    let r = decode_document(&lines(&["[7]"])).unwrap();
    assert_eq!(r, Json::Int(7));
}

#[test]
fn array_elements_are_references() {
    let r = decode_document(&lines(&["[[1,2],\"a\",\"b\"]"])).unwrap();
    assert_eq!(r, Json::Arr(vec![Json::Str(s("a")), Json::Str(s("b"))]));
}

#[test]
fn negative_reference_counts_from_end() {
    let r = decode_document(&lines(&["[[-1],\"end\"]"])).unwrap();
    assert_eq!(r, Json::Arr(vec![Json::Str(s("end"))]));
}

#[test]
fn nested_arrays_share_chunks() {
    let r = decode_document(&lines(&["[[1,[2,2]],\"a\",\"b\"]"])).unwrap();
    assert_eq!(
        r,
        Json::Arr(vec![
            Json::Str(s("a")),
            Json::Arr(vec![Json::Str(s("b")), Json::Str(s("b"))]),
        ])
    );
}

#[test]
fn push_marker_short_circuits() {
    let r = decode_document(&lines(&["[[\"P\",3],0,0,\"z\"]"])).unwrap();
    assert_eq!(r, Json::Str(s("z")));
}

#[test]
fn push_marker_discards_other_elements() {
    let r = decode_document(&lines(&["[[\"P\",3,\"junk\",99],0,0,\"z\"]"])).unwrap();
    assert_eq!(r, Json::Str(s("z")));
}

#[test]
fn push_marker_only_at_head() {
    let r = decode_document(&lines(&["[[\"a\",\"P\"]]"])).unwrap();
    assert_eq!(r, Json::Arr(vec![Json::Str(s("a")), Json::Str(s("P"))]));
}

#[test]
fn object_key_index() {
    let r = decode_document(&lines(&["[{\"_2\":3},null,\"name\",\"Alice\"]"])).unwrap();
    assert_eq!(r, Json::Obj(vec![(s("name"), Json::Str(s("Alice")))]));
}

#[test]
fn end_to_end_object_scenario() {
    let r = decode_document(&lines(&["[{\"_1\":2},\"x\",5]"])).unwrap();
    assert_eq!(r, Json::Obj(vec![(s("x"), Json::Int(5))]));
}

#[test]
fn patch_scenario() {
    let r = decode_document(&lines(&["[[\"P\",1],0]", "P0:[42]", ""])).unwrap();
    assert_eq!(r, Json::Int(42));
}

#[test]
fn patch_label_tolerates_whitespace() {
    let r = decode_document(&lines(&["[[\"P\",1],0]", "  P0  : [42]", ""])).unwrap();
    assert_eq!(r, Json::Int(42));
}

#[test]
fn patch_appends_many_chunks() {
    // The placeholder is rewired to the first appended chunk; the appended
    // region can itself hold references.
    let r = decode_document(&lines(&["[[\"P\",1],0]", "P0:[[3],\"tail\"]", ""])).unwrap();
    assert_eq!(r, Json::Arr(vec![Json::Str(s("tail"))]));
}

#[test]
fn lines_after_blank_are_ignored() {
    let r = decode_document(&lines(&["[\"a\"]", "", "garbage"])).unwrap();
    assert_eq!(r, Json::Str(s("a")));
}

#[test]
fn missing_terminating_blank_line_is_tolerated() {
    let r = decode_document(&lines(&["[[\"P\",1],0]", "P0:[1]"])).unwrap();
    assert_eq!(r, Json::Int(1));
}

#[test]
fn big_unsigned_number_passes_through() {
    let r = decode_document(&lines(&["[[1],18446744073709551615]"])).unwrap();
    assert_eq!(r, Json::Arr(vec![Json::BigUint(18446744073709551615)]));
}

#[test]
fn float_chunk_passes_through_as_text() {
    let r = decode_document(&lines(&["[[1],3.5]"])).unwrap();
    assert_eq!(r, Json::Arr(vec![Json::NumText(s("3.5"))]));
}

#[test]
fn duplicate_resolved_keys_rebind_to_later_value() {
    // "_01" sorts before "_1", so the pairs arrive as ("_01" -> "b"), then
    // ("_1" -> "a"); both resolve to the key chunk "k", and the later pair
    // wins: the decoded object is a genuine mapping.
    let r = decode_document(&lines(&["[{\"_1\":2,\"_01\":3},\"k\",\"a\",\"b\"]"])).unwrap();
    assert_eq!(r, Json::Obj(vec![(s("k"), Json::Str(s("a")))]));
}

#[test]
fn first_line_whitespace_is_trimmed() {
    // Unicode whitespace around the table line is removed before parsing,
    // as `str::trim` would do; U+00A0 is not JSON whitespace.
    let r = decode_document(&lines(&["\u{a0}\u{a0}[5]\u{a0}"])).unwrap();
    assert_eq!(r, Json::Int(5));
}

#[test]
fn patch_payload_whitespace_is_trimmed() {
    let r = decode_document(&lines(&["[[\"P\",1],0]", "P0:\u{a0}[42]\u{a0}", ""])).unwrap();
    assert_eq!(r, Json::Int(42));
}

#[test]
fn malformed_first_line() {
    let r = decode_document(&lines(&["not json"]));
    assert_eq!(r, Err(DecodeError::MalformedInput));
}

#[test]
fn first_line_not_an_array() {
    let r = decode_document(&lines(&["{\"a\":1}"]));
    assert_eq!(r, Err(DecodeError::MalformedInput));
}

#[test]
fn no_input_at_all() {
    let r = decode_document(&lines(&[]));
    assert_eq!(r, Err(DecodeError::MalformedInput));
}

#[test]
fn empty_table_has_no_root() {
    let r = decode_document(&lines(&["[]"]));
    assert_eq!(r, Err(DecodeError::IndexOutOfBounds));
}

#[test]
fn reference_out_of_bounds() {
    let r = decode_document(&lines(&["[[99]]"]));
    assert_eq!(r, Err(DecodeError::IndexOutOfBounds));
}

#[test]
fn float_reference_is_invalid() {
    let r = decode_document(&lines(&["[[1.5]]"]));
    assert_eq!(r, Err(DecodeError::InvalidIndex));
}

#[test]
fn push_marker_without_index() {
    let r = decode_document(&lines(&["[[\"P\"]]"]));
    assert_eq!(r, Err(DecodeError::InvalidIndex));
}

#[test]
fn long_acyclic_chain_decodes() {
    // A reference chain as long as the table is still acyclic and must
    // succeed: the recursion budget equals the table length.
    let r = decode_document(&lines(&["[[1],[2],[3],\"x\"]"])).unwrap();
    assert_eq!(
        r,
        Json::Arr(vec![Json::Arr(vec![Json::Arr(vec![Json::Str(s("x"))])])])
    );
}

#[test]
fn cyclic_array_reference_is_caught() {
    let r = decode_document(&lines(&["[[0]]"]));
    assert_eq!(r, Err(DecodeError::DepthExceeded));
}

#[test]
fn cyclic_object_reference_is_caught() {
    let r = decode_document(&lines(&["[{\"_1\":0},\"k\"]"]));
    assert_eq!(r, Err(DecodeError::DepthExceeded));
}

#[test]
fn object_key_without_underscore_pattern() {
    let r = decode_document(&lines(&["[{\"a\":1}]"]));
    assert_eq!(r, Err(DecodeError::InvalidKeyIndex));
}

#[test]
fn object_key_chunk_must_be_string() {
    let r = decode_document(&lines(&["[{\"_1\":2},5,\"v\"]"]));
    assert_eq!(r, Err(DecodeError::NotAString));
}

#[test]
fn object_value_must_be_reference() {
    let r = decode_document(&lines(&["[{\"_1\":true},\"k\"]"]));
    assert_eq!(r, Err(DecodeError::InvalidIndex));
}

#[test]
fn patch_line_without_colon() {
    let r = decode_document(&lines(&["[[\"P\",1],0]", "P0[42]", ""]));
    assert_eq!(r, Err(DecodeError::MalformedPatchLine));
}

#[test]
fn patch_label_with_wrong_tag() {
    let r = decode_document(&lines(&["[[\"P\",1],0]", "X0:[42]", ""]));
    assert_eq!(r, Err(DecodeError::MalformedPatchLine));
}

#[test]
fn patch_label_negative_digits_rejected() {
    let r = decode_document(&lines(&["[[\"P\",1],0]", "P-1:[42]", ""]));
    assert_eq!(r, Err(DecodeError::MalformedPatchLine));
}

#[test]
fn patch_label_out_of_bounds() {
    let r = decode_document(&lines(&["[[\"P\",1],0]", "P9:[42]", ""]));
    assert_eq!(r, Err(DecodeError::IndexOutOfBounds));
}

#[test]
fn patch_target_must_be_two_element_array() {
    let r = decode_document(&lines(&["[\"x\",0]", "P0:[42]", ""]));
    assert_eq!(r, Err(DecodeError::InvalidPlaceholder));
}

#[test]
fn patch_target_array_of_wrong_length() {
    let r = decode_document(&lines(&["[[1,2,3],0]", "P0:[42]", ""]));
    assert_eq!(r, Err(DecodeError::InvalidPlaceholder));
}

#[test]
fn patch_payload_must_be_json_array() {
    let r = decode_document(&lines(&["[[\"P\",1],0]", "P0:nope", ""]));
    assert_eq!(r, Err(DecodeError::MalformedInput));
}

#[test]
fn patch_label_huge_digits_overflow() {
    let r = decode_document(&lines(&["[[\"P\",1],0]", "P99999999999999999999:[42]", ""]));
    assert_eq!(r, Err(DecodeError::InvalidIndex));
}
