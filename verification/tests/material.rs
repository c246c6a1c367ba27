use cozy_syzygy::material::Material;
use cozy_syzygy::piece::Color;
use cozy_syzygy::SyzygyError;

fn material(s: &str) -> Material {
    Material::parse(s).unwrap()
}

#[test]
fn parse_counts_the_pieces_of_each_side() {
    let m = material("KQRvKBNP");
    assert_eq!(m.white, [1, 1, 0, 0, 0]);
    assert_eq!(m.black, [0, 0, 1, 1, 1]);
    assert_eq!(m.count(), 7);
    let m = material("KPPvKP");
    assert_eq!(m.white, [0, 0, 0, 0, 2]);
    assert_eq!(m.black, [0, 0, 0, 0, 1]);
}

#[test]
fn parse_reads_the_pieces_in_any_order_and_case() {
    assert_eq!(material("KNQvKR"), material("KQNvKR"));
    assert_eq!(material("kqvkr"), material("KQvKR"));
    assert_eq!(material("KQVKR"), material("KQvKR"));
    assert_eq!(material("QvR"), material("KQvKR"));
}

#[test]
fn parse_through_from_str_is_the_same() {
    let m: Material = "KRRvKQ".parse().unwrap();
    assert_eq!(m, material("KRRvKQ"));
    assert!(matches!("KXvK".parse::<Material>(), Err(SyzygyError::UnknownMaterial)));
}

#[test]
fn parse_rejects_unknown_letters() {
    assert!(matches!(Material::parse("KZvK"), Err(SyzygyError::UnknownMaterial)));
    assert!(matches!(Material::parse("KQvKvK"), Err(SyzygyError::UnknownMaterial)));
    assert!(matches!(Material::parse("KQ-K"), Err(SyzygyError::UnknownMaterial)));
    assert!(matches!(Material::parse("KQvK "), Err(SyzygyError::UnknownMaterial)));
    assert!(matches!(Material::parse("K\u{e9}vK"), Err(SyzygyError::UnknownMaterial)));
}

#[test]
fn parse_rejects_more_than_eight_men() {
    assert!(Material::parse("KQQQvKRRR").is_ok());
    assert!(matches!(Material::parse("KQQQQvKRRR"), Err(SyzygyError::UnknownMaterial)));
    assert!(matches!(Material::parse("KPPPPPPPvK"), Err(SyzygyError::UnknownMaterial)));
}

#[test]
fn parse_of_bare_kings_is_the_empty_material() {
    assert_eq!(material("KvK"), Material::empty());
    assert_eq!(material(""), Material::empty());
    assert_eq!(Material::empty().count(), 2);
}

#[test]
fn format_writes_the_pieces_in_canonical_order() {
    assert_eq!(material("KNQvKR").to_string(), "KQNvKR");
    assert_eq!(material("KPBNRQvK").to_string(), "KQRBNPvK");
    assert_eq!(Material::empty().to_string(), "KvK");
    assert_eq!(material("KRRvKPP").to_string(), "KRRvKPP");
}

#[test]
fn parse_of_format_gives_the_material_back() {
    for name in ["KvK", "KQvK", "KRvKR", "KQRBvKNP", "KPPPvKPPP", "KvKQQ", "KBBNvKRP"] {
        let m = material(name);
        assert_eq!(m.to_string(), name);
        assert_eq!(material(&m.to_string()), m);
    }
}

#[test]
fn canonical_means_white_is_the_stronger_side() {
    assert!(material("KQvK").is_canonical());
    assert!(!material("KvKQ").is_canonical());
    assert!(material("KRRvKQ").is_canonical());
    assert!(!material("KQvKRR").is_canonical());
    // as many pieces: the first kind in which the sides differ decides
    assert!(material("KQvKR").is_canonical());
    assert!(!material("KRvKQ").is_canonical());
    assert!(material("KRNvKBB").is_canonical());
    assert!(!material("KBBvKRN").is_canonical());
    assert!(material("KBvKN").is_canonical());
    // the same on both sides
    assert!(material("KRvKR").is_canonical());
    assert!(material("KvK").is_canonical());
}

#[test]
fn a_material_or_its_flip_is_canonical() {
    for name in ["KvK", "KQvK", "KvKQ", "KRvKR", "KRNvKBB", "KBBvKRN", "KPvKP", "KNPvKBP"] {
        let m = material(name);
        assert!(m.is_canonical() || m.flip().is_canonical());
    }
}

#[test]
fn flip_exchanges_the_sides() {
    let m = material("KQRvKP");
    assert_eq!(m.flip(), material("KPvKQR"));
    assert_eq!(m.flip().flip(), m);
    assert_eq!(m.flip().count(), m.count());
}

#[test]
fn symmetric_means_the_same_pieces_on_both_sides() {
    assert!(material("KRvKR").is_symmetric());
    assert!(material("KvK").is_symmetric());
    assert!(material("KQPvKQP").is_symmetric());
    assert!(!material("KRvKB").is_symmetric());
    assert!(!material("KRvK").is_symmetric());
}

#[test]
fn new_holds_the_counts_and_refuses_too_many_men() {
    let m = Material::new([1, 0, 0, 0, 2], [0, 1, 0, 0, 0]).unwrap();
    assert_eq!(m, material("KQPPvKR"));
    assert!(Material::new([3, 0, 0, 0, 0], [3, 0, 0, 0, 0]).is_some());
    assert!(Material::new([4, 0, 0, 0, 0], [3, 0, 0, 0, 0]).is_none());
}

#[test]
fn get_finds_the_count_of_a_kind() {
    let m = material("KQRRvKNPP");
    // kinds run from 0 for pawns to 4 for queens
    assert_eq!(m.get(Color::White, 4), 1);
    assert_eq!(m.get(Color::White, 3), 2);
    assert_eq!(m.get(Color::White, 0), 0);
    assert_eq!(m.get(Color::Black, 1), 1);
    assert_eq!(m.get(Color::Black, 0), 2);
    assert!(m.has_pawns());
    assert!(!material("KQvKR").has_pawns());
}

#[test]
fn keys_tell_materials_apart() {
    let names = ["KvK", "KQvK", "KvKQ", "KRvK", "KQvKR", "KRvKQ", "KPvK", "KPPvKP", "KPvKPP"];
    for a in names {
        for b in names {
            assert_eq!(material(a).key() == material(b).key(), a == b);
        }
    }
    assert_eq!(material("KQvKP").key(), 0x10000_00001);
}

#[test]
fn from_str_reads_what_to_string_wrote() {
    for name in ["KvK", "KQvK", "KRvKR", "KQRBvKNP", "KPPPvKPPP", "KvKQQ"] {
        let m: Material = name.parse().unwrap();
        assert_eq!(m.to_string().parse::<Material>().unwrap(), m);
    }
    assert_eq!("KqvKr".parse::<Material>().unwrap(), "KQvKR".parse::<Material>().unwrap());
    assert!(matches!("KXvK".parse::<Material>(), Err(SyzygyError::UnknownMaterial)));
}
