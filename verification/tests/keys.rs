use reason_ready::bytes::{from_be, from_le, to_be, to_le, to_signed, to_unsigned};
use reason_ready::keys::{
    decode_f64_sortable, decode_vec, encode_f64_sortable, encode_vec, extract_term_prefix,
    has_term_prefix, pidx_field_prefix, pidx_key, pidx_num_prefix, pidx_value_prefix, term_key,
    term_prefix, FieldValue, COLUMN_FAMILIES,
};
use reason_ready::score::{rank_f32, rank_f64, rank_top, unrank_f64, Scored};

#[test]
fn integers_are_bytes_as_the_machine_has_them() {
    for n in [0u64, 1, 255, 256, 0x0102_0304_0506_0708, u64::MAX] {
        assert_eq!(to_le(n, 8), n.to_le_bytes().to_vec());
        assert_eq!(to_be(n), n.to_be_bytes().to_vec());
        assert_eq!(from_le(&n.to_le_bytes()), n);
        assert_eq!(from_be(&n.to_be_bytes()), n);
        assert_eq!(to_signed(n), n as i64);
        assert_eq!(to_unsigned(n as i64), n);
    }
    assert_eq!(from_le(&[1, 2]), 0x0201);
    assert_eq!(to_le(0x0102_0304, 2), vec![4, 3]);
}

#[test]
fn a_posting_key_is_term_nul_document() {
    assert_eq!(term_key("rust", "d1"), b"rust\x00d1".to_vec());
    assert_eq!(term_prefix("rust"), b"rust\x00".to_vec());
    assert_ne!(term_key("rus", "td1"), term_key("rust", "d1"));
}

#[test]
fn the_prefix_filter_goes_by_the_term() {
    assert_eq!(extract_term_prefix(&term_key("rust", "d\x001")), term_prefix("rust"));
    assert_eq!(extract_term_prefix(b"no separator"), b"no separator".to_vec());
    assert!(has_term_prefix(b"a\x00b"));
    assert!(!has_term_prefix(b"ab"));
}

#[test]
fn stored_vectors_are_read_back() {
    let v: Vec<f32> = vec![0.0, -0.0, 1.5, f32::MIN, f32::INFINITY, -3.25];
    let bits: Vec<u32> = v.iter().map(|x| x.to_bits()).collect();
    let bytes = encode_vec(&bits);
    let want: Vec<u8> = v.iter().flat_map(|x| x.to_le_bytes()).collect();
    assert_eq!(bytes, want);
    assert_eq!(decode_vec(&bytes), bits);
    // Bytes that make no component are passed over.
    assert_eq!(decode_vec(&[0, 0, 128, 63, 9]), vec![1.0f32.to_bits()]);
}

#[test]
fn sortable_numbers_are_ordered_as_the_numbers_are() {
    let xs = [
        f64::NEG_INFINITY, -1e300, -2.0, -1.0, -1e-300, 0.0, 5e-324, 1.0, 2.0, 1e300, f64::INFINITY,
    ];
    for a in xs {
        for b in xs {
            let ka = encode_f64_sortable(a.to_bits());
            let kb = encode_f64_sortable(b.to_bits());
            assert_eq!(ka < kb, a < b, "{a} {b}");
        }
        assert_eq!(f64::from_bits(decode_f64_sortable(&encode_f64_sortable(a.to_bits()))), a);
    }
    // Both zeros are one value.
    assert_eq!(encode_f64_sortable((-0.0f64).to_bits()), encode_f64_sortable(0.0f64.to_bits()));
}

#[test]
fn index_rows_hold_field_value_and_document() {
    assert_eq!(pidx_field_prefix("year"), b"year\x00".to_vec());
    let num = pidx_num_prefix("year");
    let value = FieldValue::Number(1999.0f64.to_bits());
    let row = pidx_key("year", &value, "d1");
    assert!(row.starts_with(&num));
    assert_eq!(row.len(), num.len() + 8 + 1 + 2);
    assert_eq!(row[num.len() + 8], 0);
    assert!(row.starts_with(&pidx_value_prefix("year", &value)));
    let text = FieldValue::Text("mail".to_string());
    assert_ne!(pidx_value_prefix("kind", &text), pidx_value_prefix("kind", &FieldValue::Null));
    assert_ne!(
        pidx_value_prefix("kind", &FieldValue::Bool(true)),
        pidx_value_prefix("kind", &FieldValue::Bool(false))
    );
}

#[test]
fn column_families_have_names_of_their_own() {
    for (i, a) in COLUMN_FAMILIES.iter().enumerate() {
        for b in &COLUMN_FAMILIES[i + 1..] {
            assert_ne!(a, b);
        }
    }
}

#[test]
fn ranks_follow_the_total_order_of_floats() {
    let xs = [
        f32::NEG_INFINITY, -1.0, -1e-40, -0.0, 0.0, 1e-40, 0.5, 1.0, f32::INFINITY, f32::NAN, -f32::NAN,
    ];
    for a in xs {
        for b in xs {
            assert_eq!(rank_f32(a.to_bits()) < rank_f32(b.to_bits()), a.total_cmp(&b).is_lt());
            let (c, d) = (a as f64, b as f64);
            assert_eq!(rank_f64(c.to_bits()) < rank_f64(d.to_bits()), c.total_cmp(&d).is_lt());
        }
        let bits = (a as f64).to_bits();
        assert_eq!(unrank_f64(rank_f64(bits)), bits);
    }
}

fn scored(v: &[(&str, f32)]) -> Vec<Scored> {
    v.iter().map(|(id, s)| Scored { id: id.to_string(), score: s.to_bits() }).collect()
}

#[test]
fn a_ranking_keeps_the_best_and_breaks_ties_by_id() {
    let all = scored(&[("c", 0.5), ("a", 0.5), ("d", 0.9), ("b", -1.0), ("e", 0.5)]);
    let top: Vec<String> = rank_top(&all, 3).into_iter().map(|s| s.id).collect();
    assert_eq!(top, vec!["d", "a", "c"]);
    let every: Vec<String> = rank_top(&all, 99).into_iter().map(|s| s.id).collect();
    assert_eq!(every, vec!["d", "a", "c", "e", "b"]);
    assert!(rank_top(&all, 0).is_empty());
    assert!(rank_top(&Vec::new(), 5).is_empty());
}

#[test]
fn a_ranking_sorts_as_a_stable_sort_does() {
    let mut seed = 7u64;
    let mut all: Vec<(String, f32)> = Vec::new();
    for _ in 0..500 {
        let a = reason_ready::bench::xorshift(&mut seed) % 97;
        let b = reason_ready::bench::xorshift(&mut seed) % 13;
        all.push((format!("id{a}"), b as f32 - 6.0));
    }
    let input: Vec<Scored> =
        all.iter().map(|(id, s)| Scored { id: id.clone(), score: s.to_bits() }).collect();
    all.sort_by(|a, b| b.1.total_cmp(&a.1).then_with(|| a.0.cmp(&b.0)));
    let got: Vec<(String, f32)> = rank_top(&input, 400)
        .into_iter()
        .map(|s| (s.id, f32::from_bits(s.score)))
        .collect();
    assert_eq!(got, all[..400].to_vec());
}
