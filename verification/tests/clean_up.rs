use kd_index::clean_up::{
    extract, is_guide, keeps_gate, keeps_part, lists_system, BGate, Cassette, GateKind,
    OldGateParts, Part, PartKind, RawPart,
};

fn part(kind_field: &str, kind: PartKind, name: &str, seq: &str) -> RawPart {
    RawPart {
        kind_field: kind_field.to_owned(),
        part: Part { kind: kind, name: name.to_owned(), seq: seq.to_owned() },
    }
}

fn raw_gate(name: &str, cassettes: Vec<Vec<&str>>, promoter: &str) -> OldGateParts {
    OldGateParts {
        name: name.to_owned(),
        cassettes: cassettes
            .into_iter()
            .map(|c| Cassette {
                maps_to: "x".to_owned(),
                parts: c.into_iter().map(|p| p.to_owned()).collect(),
            })
            .collect(),
        promoter: promoter.to_owned(),
    }
}

#[test]
fn guide_names() {
    assert!(is_guide("sgRNA"));
    assert!(is_guide("sgRNA_1"));
    assert!(is_guide("sgRNA_"));
    assert!(!is_guide("sgRNA1"));
    assert!(!is_guide("sgRN"));
    assert!(!is_guide(""));
    assert!(!is_guide("SgRNA_1"));
    assert!(!is_guide("A1_sgRNA"));
}

#[test]
fn parts_left_out_by_kind_field() {
    assert!(!keeps_part(&"SgRNA".to_owned()));
    assert!(keeps_part(&"sgRNA".to_owned()));
    assert!(keeps_part(&"".to_owned()));
    assert!(keeps_part(&"Cds".to_owned()));
}

#[test]
fn systems_listed_by_type() {
    assert!(lists_system(&"TetR".to_owned()));
    assert!(lists_system(&"sensor".to_owned()));
    assert!(!lists_system(&"tetr".to_owned()));
    assert!(!lists_system(&"".to_owned()));
    assert!(!lists_system(&"CRISPRi".to_owned()));
}

#[test]
fn gates_left_out_by_name() {
    assert!(!keeps_gate(&"SicA_InvF".to_owned()));
    assert!(!keeps_gate(&"ExsC_ExsDA".to_owned()));
    assert!(!keeps_gate(&"sgRNA_7".to_owned()));
    assert!(keeps_gate(&"A1_AmtR".to_owned()));
    assert!(keeps_gate(&"SicA_InvF2".to_owned()));
}

#[test]
fn extract_keeps_order_and_drops_guides() {
    let parts = vec![
        part("", PartKind::Promoter, "pTac", "AAC"),
        part("SgRNA", PartKind::SgRNA, "g1", "GGG"),
        part("", PartKind::SgRNA, "g2", "CCC"),
        part("Cds", PartKind::Cds, "AmtR", "ATG"),
    ];
    let gates = vec![
        raw_gate("A1_AmtR", vec![vec!["RiboJ", "A1", "AmtR"], vec!["other"]], "pAmtR"),
        raw_gate("SicA_InvF", vec![], "pSicA"),
        raw_gate("sgRNA_2", vec![], "pGuide"),
        raw_gate("P3_PhlF", vec![vec!["RiboJ53"]], "pPhlF"),
    ];
    let out = extract(&parts, &gates);
    assert_eq!(out.parts.len(), 3);
    assert_eq!(out.parts[0].name, "pTac");
    assert_eq!(out.parts[0].seq, "AAC");
    assert_eq!(out.parts[0].kind, PartKind::Promoter);
    assert_eq!(out.parts[1].name, "g2");
    assert_eq!(out.parts[1].kind, PartKind::SgRNA);
    assert_eq!(out.parts[2].name, "AmtR");
    assert_eq!(out.parts[2].kind, PartKind::Cds);
    assert_eq!(out.gate_parts.len(), 2);
    assert_eq!(out.gate_parts[0].name, "A1_AmtR");
    assert_eq!(out.gate_parts[0].parts, vec!["RiboJ", "A1", "AmtR"]);
    assert_eq!(out.gate_parts[0].promoter, "pAmtR");
    assert_eq!(out.gate_parts[1].name, "P3_PhlF");
    assert_eq!(out.gate_parts[1].parts, vec!["RiboJ53"]);
    assert_eq!(out.gate_parts[1].promoter, "pPhlF");
}

#[test]
fn extract_of_nothing_is_nothing() {
    let out = extract(&Vec::new(), &Vec::new());
    assert!(out.parts.is_empty());
    assert!(out.gate_parts.is_empty());
}

#[test]
fn gate_record_holds_its_kind() {
    let g = BGate { group: "AmtR".to_owned(), name: "A1_AmtR".to_owned(), kind: GateKind::NOR };
    assert_eq!(g.kind, GateKind::NOR);
    assert_ne!(g.kind, GateKind::Unknown);
    assert_eq!(g.group, "AmtR");
    assert_eq!(g.name, "A1_AmtR");
}
