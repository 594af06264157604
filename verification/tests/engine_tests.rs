use genome::api::{compare_dna, decode_dna, generate_dna, merge_dna, zero_dna};
use genome::dna::{GenomeError, DNA};
use genome::rng::Rng;

fn dna_from(s: &str) -> DNA {
    DNA::from(s).expect("valid encoding")
}

#[test]
fn self_similarity_is_maximal() {
    let mut rng = Rng::new(11);
    let d = DNA::new(5, 7, &mut rng);
    let max = d.max_similarity();
    let sim = DNA::compare(d.clone(), d).expect("equal shapes");
    assert_eq!(sim, max);
    assert_eq!(sim, 5 * 7);
}

#[test]
fn similarity_is_symmetric() {
    let mut rng = Rng::new(12);
    let a = DNA::new(6, 6, &mut rng);
    let b = DNA::new(6, 6, &mut rng);
    let ab = DNA::compare(a.clone(), b.clone()).expect("equal shapes");
    let ba = DNA::compare(b, a).expect("equal shapes");
    assert_eq!(ab, ba);
}

#[test]
fn similarity_counts_matching_bits() {
    let a = dna_from("1:4:1010");
    let b = dna_from("1:4:1001");
    assert_eq!(DNA::compare(a, b), Ok(2));
    let c = dna_from("2:2:1100");
    let d = dna_from("2:2:1100");
    assert_eq!(DNA::compare(c, d), Ok(4));
}

#[test]
fn compare_rejects_mismatched_shapes() {
    let a = dna_from("1:4:1010");
    let b = dna_from("2:2:1001");
    assert_eq!(DNA::compare(a, b), Err(GenomeError::ShapeMismatch));
}

#[test]
fn merge_preserves_shape() {
    let mut rng = Rng::new(13);
    let a = DNA::new(4, 3, &mut rng);
    let b = DNA::new(4, 3, &mut rng);
    for allow_mutation in [false, true] {
        let c = DNA::merge(a.clone(), b.clone(), allow_mutation, &mut rng).expect("equal shapes");
        assert_eq!(c.pool_size, a.pool_size);
        assert_eq!(c.gene_size, a.gene_size);
    }
}

#[test]
fn merge_without_mutation_is_deterministic() {
    let mut rng1 = Rng::new(100);
    let mut rng2 = Rng::new(999);
    let a = dna_from("3:2:110100");
    let b = dna_from("3:2:001011");
    let c1 = DNA::merge(a.clone(), b.clone(), false, &mut rng1).expect("equal shapes");
    let c2 = DNA::merge(a, b, false, &mut rng2).expect("equal shapes");
    assert!(c1.equals(&c2));
    assert_eq!(rng1.state, 100);
    assert_eq!(rng2.state, 999);
}

#[test]
fn merge_alternates_parent_genes() {
    let mut rng = Rng::new(1);
    let a = dna_from("2:2:1111");
    let b = dna_from("2:2:0000");
    let c = DNA::merge(a, b, false, &mut rng).expect("equal shapes");
    assert_eq!(c.to_string(), "2:2:1100");
}

#[test]
fn merge_rejects_mismatched_pools() {
    let mut rng = Rng::new(2);
    let a = DNA::new(3, 4, &mut rng);
    let b = DNA::new(5, 4, &mut rng);
    assert_eq!(
        DNA::merge(a, b, true, &mut rng).unwrap_err(),
        GenomeError::ShapeMismatch
    );
}

#[test]
fn zero_at_clears_exactly_one_gene() {
    let mut d = dna_from("2:2:1111");
    d.zero_at(0).expect("in range");
    assert_eq!(d.to_string(), "2:2:0011");
    let mut e = dna_from("2:2:1111");
    e.zero_at(1).expect("in range");
    assert_eq!(e.to_string(), "2:2:1100");
}

#[test]
fn zero_at_bounds_are_exact() {
    let mut rng = Rng::new(5);
    let mut d = DNA::new(5, 3, &mut rng);
    assert_eq!(d.zero_at(10), Err(GenomeError::PositionOutOfRange));
    assert_eq!(d.zero_at(5), Err(GenomeError::PositionOutOfRange));
    assert!(d.zero_at(4).is_ok());
    assert!(d.zero_at(0).is_ok());
}

#[test]
fn latent_length_is_pool_times_gene() {
    let mut rng = Rng::new(6);
    for (p, g) in [
        (0u16, 0u16),
        (0, 1),
        (1, 0),
        (1, 1),
        (1, 8),
        (8, 1),
        (8, 8),
        (8, 512),
        (512, 8),
        (512, 512),
    ] {
        let d = DNA::new(p, g, &mut rng);
        let v = d.to_latent_vec();
        assert_eq!(v.len(), p as usize * g as usize);
    }
}

#[test]
fn generate_has_requested_shape() {
    let mut rng = Rng::new(8);
    let d = DNA::new(4, 8, &mut rng);
    assert_eq!(d.pool_size, 4);
    assert_eq!(d.gene_size, 8);
    assert_eq!(d.genes.len(), 4);
    for gene in &d.genes {
        assert_eq!(gene.bits.len(), 8);
    }
    assert_eq!(d.to_latent_vec().len(), 32);
}

#[test]
fn latent_vector_lists_bits_in_order() {
    let d = dna_from("2:4:10110010");
    assert_eq!(d.to_latent_vec(), vec![1, 0, 1, 1, 0, 0, 1, 0]);
}

#[test]
fn generate_dna_reports_all_fields() {
    let mut rng = Rng::new(21);
    let info = generate_dna(3, 2, &mut rng);
    assert_eq!(info.pool_size, 3);
    assert_eq!(info.gene_size, 2);
    assert_eq!(info.raw_size, 6);
    assert_eq!(info.raw_value.len(), 6);
    let d = dna_from(&info.dna_str);
    assert_eq!(d.to_latent_vec(), info.raw_value);
}

#[test]
fn decode_dna_round_trips_the_string() {
    let s = "3:3:101010101";
    let info = decode_dna(s).expect("valid encoding");
    assert_eq!(info.dna_str, s);
    assert_eq!(info.pool_size, 3);
    assert_eq!(info.gene_size, 3);
    assert_eq!(info.raw_size, 9);
    assert_eq!(info.raw_value, vec![1, 0, 1, 0, 1, 0, 1, 0, 1]);
    assert_eq!(decode_dna("junk").unwrap_err(), GenomeError::DecodeError);
}

#[test]
fn compare_dna_validates_before_decoding() {
    assert_eq!(
        compare_dna("junk", "1:1:1"),
        Err(GenomeError::InvalidEncoding)
    );
    assert_eq!(
        compare_dna("1:1:1", ""),
        Err(GenomeError::InvalidEncoding)
    );
    assert_eq!(
        compare_dna("1:4:1010", "2:2:1001"),
        Err(GenomeError::ShapeMismatch)
    );
    assert_eq!(compare_dna("1:4:1010", "1:4:1001"), Ok(2));
    assert_eq!(compare_dna("1:4:1010", "1:4:1010"), Ok(4));
}

#[test]
fn compare_dna_is_symmetric_on_strings() {
    let s1 = "2:3:110010";
    let s2 = "2:3:011011";
    assert_eq!(compare_dna(s1, s2), compare_dna(s2, s1));
}

#[test]
fn merge_dna_validates_and_checks_shapes() {
    let mut rng = Rng::new(30);
    assert_eq!(
        merge_dna("junk", "1:1:1", true, &mut rng).unwrap_err(),
        GenomeError::InvalidEncoding
    );
    let a = "3:2:110100";
    let b = "5:2:0010111010";
    assert_eq!(
        merge_dna(a, b, true, &mut rng).unwrap_err(),
        GenomeError::ShapeMismatch
    );
    let info = merge_dna("2:2:1111", "2:2:0000", false, &mut rng).expect("equal shapes");
    assert_eq!(info.dna_str, "2:2:1100");
    assert_eq!(info.pool_size, 2);
    assert_eq!(info.gene_size, 2);
    assert_eq!(info.raw_value, vec![1, 1, 0, 0]);
    assert_eq!(info.raw_size, 4);
}

#[test]
fn merged_child_is_a_valid_encoding() {
    let mut rng = Rng::new(31);
    let a = generate_dna(4, 4, &mut rng);
    let b = generate_dna(4, 4, &mut rng);
    let child = merge_dna(&a.dna_str, &b.dna_str, true, &mut rng).expect("equal shapes");
    assert!(DNA::is_valid(&child.dna_str));
    assert_eq!(child.pool_size, 4);
    assert_eq!(child.gene_size, 4);
}

#[test]
fn zero_dna_checks_position_and_decodes() {
    let mut rng = Rng::new(32);
    let d = generate_dna(5, 3, &mut rng);
    assert_eq!(
        zero_dna(&d.dna_str, 10).unwrap_err(),
        GenomeError::PositionOutOfRange
    );
    assert_eq!(zero_dna("junk", 0).unwrap_err(), GenomeError::DecodeError);
    let info = zero_dna("2:3:111111", 1).expect("in range");
    assert_eq!(info.dna_str, "2:3:111000");
    assert_eq!(info.raw_value, vec![1, 1, 1, 0, 0, 0]);
}
