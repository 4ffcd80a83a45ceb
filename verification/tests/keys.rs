use openplan::daemon::{decode_header, encode_header};
use openplan::order::id_cmp;

#[test]
fn keys_order_by_their_number() {
    let mut keys = ["OPP-10", "OPP-2", "OPP-1", "OPP-100", "OPP-9"];
    keys.sort_by(|a, b| id_cmp(a, b));
    assert_eq!(keys, ["OPP-1", "OPP-2", "OPP-9", "OPP-10", "OPP-100"]);
}

#[test]
fn a_header_carries_any_name_and_reads_back_the_same() {
    for text in ["Ada Lovelace", "Milan Šuk", "100% sure", "a\nb"] {
        let encoded = encode_header(text);
        assert!(
            encoded.bytes().all(|byte| byte.is_ascii_graphic()),
            "{encoded}"
        );
        assert_eq!(decode_header(&encoded).as_deref(), Some(text));
    }
    assert_eq!(decode_header("%zz"), None);
}

use openplan::keys::{key_number, parse_id, ref_target};
use openplan::order::rank_cmp;
use std::cmp::Ordering;

#[test]
fn a_task_number_is_one_or_more_digits_that_fit() {
    assert_eq!(parse_id("42"), Some(42));
    assert_eq!(parse_id("007"), Some(7));
    assert_eq!(parse_id("18446744073709551615"), Some(u64::MAX));
    assert_eq!(parse_id("18446744073709551616"), None);
    assert_eq!(parse_id(""), None);
    assert_eq!(parse_id("4a"), None);
    assert_eq!(parse_id("-4"), None);
    assert_eq!(parse_id("+4"), None);
}

#[test]
fn a_key_is_a_number_behind_its_last_dash() {
    assert_eq!(key_number("OPP-42"), Some(42));
    assert_eq!(key_number("MY-APP-7"), Some(7));
    assert_eq!(key_number("OPP-"), None);
    assert_eq!(key_number("OPP"), None);
    assert_eq!(key_number("OPP-4x"), None);
}

#[test]
fn a_reference_names_the_task_before_its_section() {
    assert_eq!(ref_target("OPP-7#Design"), "OPP-7");
    assert_eq!(ref_target("OPP-7"), "OPP-7");
    assert_eq!(ref_target("#Design"), "");
    assert_eq!(ref_target("OPP-7#a#b"), "OPP-7");
}

#[test]
fn ids_that_are_not_both_keys_order_as_text() {
    assert_eq!(id_cmp("OPP-10", "OPP-9"), Ordering::Greater);
    assert_eq!(id_cmp("notes", "OPP-9"), Ordering::Greater);
    assert_eq!(id_cmp("a", "b"), Ordering::Less);
    assert_eq!(id_cmp("OPP-07", "OPP-7"), Ordering::Equal);
}

#[test]
fn a_ranked_task_leads_and_ranks_order_as_text() {
    assert_eq!(rank_cmp(Some("a"), None, || Ordering::Greater), Ordering::Less);
    assert_eq!(rank_cmp(None, Some("a"), || Ordering::Less), Ordering::Greater);
    assert_eq!(rank_cmp(Some("m"), Some("t"), || Ordering::Greater), Ordering::Less);
    assert_eq!(rank_cmp(Some("m"), Some("m"), || Ordering::Greater), Ordering::Greater);
    assert_eq!(rank_cmp(None, None, || Ordering::Equal), Ordering::Equal);
}

#[test]
fn a_header_value_spells_every_byte_it_cannot_carry() {
    assert_eq!(encode_header("Ada Lovelace"), "Ada%20Lovelace");
    assert_eq!(encode_header("100% sure"), "100%25%20sure");
    assert_eq!(encode_header(""), "");
    assert_eq!(decode_header("Ada%20Lovelace").as_deref(), Some("Ada Lovelace"));
    assert_eq!(decode_header("%"), None);
    assert_eq!(decode_header("%4"), None);
    assert_eq!(decode_header("%ff"), None, "a lone byte that is no text");
}
