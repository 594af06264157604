use genome::dna::{Gene, GenomeError, DNA};
use genome::rng::Rng;

fn dna_from(s: &str) -> DNA {
    DNA::from(s).expect("valid encoding")
}

#[test]
fn valid_string_round_trips() {
    let s = "2:4:10110010";
    let d = dna_from(s);
    assert_eq!(d.pool_size, 2);
    assert_eq!(d.gene_size, 4);
    assert_eq!(d.to_string(), s);
}

#[test]
fn generated_dna_round_trips() {
    let mut rng = Rng::new(42);
    let d = DNA::new(6, 5, &mut rng);
    let s = d.to_string();
    let d2 = dna_from(&s);
    assert!(d2.equals(&d));
    assert_eq!(d2.to_string(), s);
}

#[test]
fn degenerate_shapes_round_trip() {
    let mut rng = Rng::new(7);
    for (p, g) in [(0u16, 0u16), (0, 8), (8, 0), (1, 1)] {
        let d = DNA::new(p, g, &mut rng);
        let s = d.to_string();
        let d2 = dna_from(&s);
        assert!(d2.equals(&d));
        assert_eq!(d2.to_string(), s);
    }
    assert_eq!(DNA::new(0, 0, &mut rng).to_string(), "0:0:");
}

#[test]
fn empty_string_is_invalid() {
    assert!(!DNA::is_valid(""));
    assert_eq!(DNA::from("").unwrap_err(), GenomeError::DecodeError);
}

#[test]
fn generated_encoding_is_valid() {
    let mut rng = Rng::new(3);
    let d = DNA::new(2, 4, &mut rng);
    assert!(DNA::is_valid(&d.to_string()));
}

#[test]
fn malformed_strings_are_invalid() {
    for s in [
        ":", "::", "2:4", "2:4:", "2:4:101", "2:4:101100100", "2:4:1011002 ", "2:4:10110012",
        "04:2:10111011", "2:04:10111011", "-2:4:10110010", "2.0:4:10110010", "70000:1:1",
        "1:70000:1", "a:4:1011", "4:b:1011", "2:4:1011001O",
    ] {
        assert!(!DNA::is_valid(s), "expected invalid: {:?}", s);
        assert_eq!(DNA::from(s).unwrap_err(), GenomeError::DecodeError);
    }
}

#[test]
fn zero_header_needs_empty_block() {
    assert!(DNA::is_valid("0:4:"));
    assert!(!DNA::is_valid("0:4:1"));
    assert!(DNA::is_valid("3:0:"));
}

#[test]
fn decode_reads_header_exactly() {
    let d = dna_from("12:1:101010101010");
    assert_eq!(d.pool_size, 12);
    assert_eq!(d.gene_size, 1);
    assert_eq!(d.genes.len(), 12);
    for (i, gene) in d.genes.iter().enumerate() {
        assert_eq!(gene.bits.len(), 1);
        assert_eq!(gene.bits[0], i % 2 == 0);
    }
}

#[test]
fn gene_zero_clears_all_bits() {
    let mut g = Gene {
        bits: vec![true, false, true],
    };
    g.zero();
    assert_eq!(g.bits, vec![false, false, false]);
    let z = Gene::zeroed(4);
    assert_eq!(z.bits, vec![false, false, false, false]);
}
