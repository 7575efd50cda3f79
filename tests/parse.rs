use bom_forge::components::{ComponentType, BOM};
use bom_forge::parse::{
    split_name, trimmed, CplData, CplDataEntry, LoadError, PreprocessedBOM, PreprocessedBOMEntry,
};

fn s(x: &str) -> String {
    x.to_string()
}

fn entry(name: &str, description: &str, mpn: &str, designators: &[&str]) -> PreprocessedBOMEntry {
    PreprocessedBOMEntry::new(s(name), s(description), s(mpn), designators.iter().map(|d| s(d)).collect())
}

fn placements(rows: &[(&str, &str)]) -> CplData {
    CplData::build(rows.iter().map(|(d, v)| CplDataEntry::new(s(d), s(v))).collect())
}

fn names(bom: &PreprocessedBOM) -> Vec<String> {
    bom.bom.iter().map(|e| e.name().to_string()).collect()
}

#[test]
fn resolver_expands_ambiguous_row() {
    let mut bom = PreprocessedBOM { bom: vec![entry("10k,4.7k", "Resistors", "RC0805", &["R1", "R2"])] };
    let cpl = placements(&[("R1", "10k"), ("R2", "4.7k")]);
    bom.fix_ambigious_rows(&cpl);
    assert_eq!(bom.bom.len(), 2);
    assert_eq!(bom.bom[0].name(), "10k");
    assert_eq!(bom.bom[0].designators(), &vec![s("R1")]);
    assert_eq!(bom.bom[0].description(), "");
    assert_eq!(bom.bom[0].mpn(), "");
    assert_eq!(bom.bom[1].name(), "4.7k");
    assert_eq!(bom.bom[1].designators(), &vec![s("R2")]);
    assert!(bom.bom.iter().all(|e| e.name() != "10k,4.7k"));
}

#[test]
fn resolver_keeps_unambiguous_rows() {
    let original = vec![
        entry("10k", "Resistor", "RC0805-10K", &["R1", "R3"]),
        entry("100nF", "Capacitor", "CL10B104", &["C1"]),
        entry("10k,", "Odd", "X", &["R9"]),
    ];
    let mut bom = PreprocessedBOM { bom: original.iter().map(|e| e.duplicate()).collect() };
    let cpl = placements(&[("R1", "10k"), ("C1", "100nF")]);
    bom.fix_ambigious_rows(&cpl);
    assert_eq!(bom.bom.len(), original.len());
    for (a, b) in bom.bom.iter().zip(original.iter()) {
        assert_eq!(a.name(), b.name());
        assert_eq!(a.description(), b.description());
        assert_eq!(a.mpn(), b.mpn());
        assert_eq!(a.designators(), b.designators());
    }
}

#[test]
fn unmatched_sub_name_gets_no_designators() {
    let mut bom = PreprocessedBOM { bom: vec![entry("10k, 22k", "", "", &["R1", "R2"])] };
    let cpl = placements(&[("R1", "10k")]);
    bom.fix_ambigious_rows(&cpl);
    assert_eq!(names(&bom), vec![s("10k"), s("22k")]);
    assert_eq!(bom.bom[0].designators(), &vec![s("R1")]);
    assert!(bom.bom[1].designators().is_empty());
}

#[test]
fn resolver_orders_survivors_then_expansions() {
    let mut bom = PreprocessedBOM {
        bom: vec![
            entry("1k,2k", "", "", &[]),
            entry("100nF", "", "", &["C1"]),
            entry("3k , 4k,5k", "", "", &[]),
            entry("1k,2k", "", "", &[]),
            entry("LED", "", "", &["D1"]),
        ],
    };
    let cpl = placements(&[("R1", "1k"), ("R2", "2k"), ("R5", "1k"), ("R3", "3k")]);
    bom.fix_ambigious_rows(&cpl);
    assert_eq!(
        names(&bom),
        vec![s("100nF"), s("LED"), s("1k"), s("2k"), s("3k"), s("4k"), s("5k"), s("1k"), s("2k")]
    );
    assert_eq!(bom.bom[2].designators(), &vec![s("R1"), s("R5")]);
    assert_eq!(bom.bom[4].designators(), &vec![s("R3")]);
}

#[test]
fn ambiguous_names_are_listed_per_row() {
    let bom = PreprocessedBOM {
        bom: vec![
            entry("1k,2k", "", "", &[]),
            entry("100nF", "", "", &[]),
            entry("1k,2k", "", "", &[]),
            entry(",,3k,", "", "", &[]),
        ],
    };
    assert_eq!(bom.find_ambigious_names(), vec![s("1k,2k"), s("1k,2k")]);
}

#[test]
fn designators_found_by_exact_value() {
    let cpl = placements(&[("R1", "10k"), ("R2", "10K"), ("R3", "10k"), ("R4", "10000")]);
    assert_eq!(PreprocessedBOM::find_designators_for_name("10k", &cpl), vec![s("R1"), s("R3")]);
    assert!(PreprocessedBOM::find_designators_for_name("22k", &cpl).is_empty());
}

#[test]
fn names_split_and_trimmed() {
    assert_eq!(split_name(" 10k , 4.7k ,,"), vec![s("10k"), s("4.7k")]);
    assert_eq!(split_name("LED"), vec![s("LED")]);
    assert!(split_name(" , ").is_empty());
    assert_eq!(trimmed("\t a b \n"), s("a b"));
}

#[test]
fn bom_from_records() {
    let headers = vec![s(" Name"), s("Description "), s("Designator"), s("Part Number")];
    let records = vec![
        vec![s(" 10k "), s("Resistor"), s("R1, R2 ,R3"), s("RC0805")],
        vec![s("100nF"), s("Cap")],
    ];
    let bom = PreprocessedBOM::from_records(&headers, &records);
    assert_eq!(bom.bom.len(), 2);
    assert_eq!(bom.bom[0].name(), "10k");
    assert_eq!(bom.bom[0].description(), "Resistor");
    assert_eq!(bom.bom[0].mpn(), "RC0805");
    assert_eq!(bom.bom[0].designators(), &vec![s("R1"), s("R2"), s("R3")]);
    assert_eq!(bom.bom[1].name(), "100nF");
    assert_eq!(bom.bom[1].mpn(), "");
    assert!(bom.bom[1].designators().is_empty());
}

#[test]
fn placements_from_records_after_title_block() {
    let records = vec![
        vec![s("Pick Place for PCB1")],
        vec![s("Units: mm"), s("")],
        vec![s(" Designator "), s("Footprint"), s("Comment")],
        vec![s("R1"), s("0805"), s(" 10k ")],
        vec![s("R2 "), s("0805"), s("4.7k")],
    ];
    let cpl = CplData::from_records(&records).unwrap();
    assert_eq!(cpl.len(), 2);
    assert_eq!(PreprocessedBOM::find_designators_for_name("10k", &cpl), vec![s("R1")]);
    assert_eq!(PreprocessedBOM::find_designators_for_name("4.7k", &cpl), vec![s("R2")]);
}

#[test]
fn placements_missing_header() {
    let no_header = vec![vec![s("R1"), s("10k")]];
    assert_eq!(CplData::from_records(&no_header).unwrap_err(), LoadError::MissingHeader);
    let no_comment = vec![vec![s("Designator"), s("Value")], vec![s("R1"), s("10k")]];
    assert_eq!(CplData::from_records(&no_comment).unwrap_err(), LoadError::MissingHeader);
}

#[test]
fn placements_missing_field() {
    let records = vec![vec![s("Designator"), s("Comment")], vec![s("R1"), s("10k")], vec![s("R2")]];
    assert_eq!(CplData::from_records(&records).unwrap_err(), LoadError::MissingField);
}

#[test]
fn empty_bom_for_board() {
    let seed = BOM { pcb_name: s("seed"), bom: std::collections::HashMap::new() };
    let b = seed.new(s("CANbus"));
    assert_eq!(b.pcb_name, "CANbus");
    assert!(b.bom.is_empty());
    let kinds = [ComponentType::Resistor(10), ComponentType::IC(s("NE555"))];
    assert_eq!(kinds.len(), 2);
}
