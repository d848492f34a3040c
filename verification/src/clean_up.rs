//! Cleaning of raw catalog records: which parts and which gates are kept,
//! and what is kept of each.

use vstd::prelude::*;
use vstd::string::StrSliceExecFns;

verus! {

/// The logic function of a gate.
#[derive(Clone, Copy, Debug, PartialEq, Eq, Structural)]
pub enum GateKind {
    OR,
    NOT,
    NOR,
    AND,
    NAND,
    Unknown,
}

/// What a part of a gate is.
#[derive(Clone, Copy, Debug, PartialEq, Eq, Structural)]
pub enum PartKind {
    Ribozyme,
    Rbs,
    Cds,
    Promoter,
    Terminator,
    Scar,
    SgRNA,
}

/// A part with its DNA sequence.
#[derive(Clone, Debug)]
pub struct Part {
    pub kind: PartKind,
    pub name: String,
    pub seq: String,
}

/// A part as a raw record holds it, beside the text of the record's `kind`
/// field, which is empty where the record has no such text.
#[derive(Clone, Debug)]
pub struct RawPart {
    pub kind_field: String,
    pub part: Part,
}

/// A gate as the catalog names it.
#[derive(Clone, Debug)]
pub struct BGate {
    pub group: String,
    pub name: String,
    pub kind: GateKind,
}

/// The parts of one expression cassette.
#[derive(Clone, Debug)]
pub struct Cassette {
    pub maps_to: String,
    pub parts: Vec<String>,
}

/// The parts of a gate as the raw catalog records them.
#[derive(Clone, Debug)]
pub struct OldGateParts {
    pub name: String,
    pub cassettes: Vec<Cassette>,
    pub promoter: String,
}

/// The parts of a gate: those of its first cassette, and its promoter.
#[derive(Clone, Debug)]
pub struct GateParts {
    pub name: String,
    pub parts: Vec<String>,
    pub promoter: String,
}

/// What was kept of the raw records.
#[derive(Clone, Debug)]
pub struct Extracted {
    pub parts: Vec<Part>,
    pub gate_parts: Vec<GateParts>,
}

/// A part as plain values.
pub ghost struct PartView {
    pub kind: PartKind,
    pub name: Seq<char>,
    pub seq: Seq<char>,
}

/// The parts of a gate as plain values.
pub ghost struct GatePartsView {
    pub name: Seq<char>,
    pub parts: Seq<String>,
    pub promoter: Seq<char>,
}

impl View for Part {
    type V = PartView;

    open spec fn view(&self) -> PartView {
        PartView { kind: self.kind, name: self.name@, seq: self.seq@ }
    }
}

impl View for GateParts {
    type V = GatePartsView;

    open spec fn view(&self) -> GatePartsView {
        GatePartsView { name: self.name@, parts: self.parts@, promoter: self.promoter@ }
    }
}

/// The name is `sgRNA`, or begins with `sgRNA_`.
pub open spec fn is_guide_name(name: Seq<char>) -> bool {
    &&& name.len() >= 5
    &&& name[0] == 's'
    &&& name[1] == 'g'
    &&& name[2] == 'R'
    &&& name[3] == 'N'
    &&& name[4] == 'A'
    &&& (name.len() == 5 || name[5] == '_')
}

/// A gate is kept unless it is one of the two gates that are left out by
/// name, or a guide.
pub open spec fn gate_is_kept(name: Seq<char>) -> bool {
    name != "SicA_InvF"@ && name != "ExsC_ExsDA"@ && !is_guide_name(name)
}

/// A part is kept unless its record's `kind` field reads `SgRNA`.
pub open spec fn part_is_kept(kind_field: Seq<char>) -> bool {
    kind_field != "SgRNA"@
}

/// The parts among the first `n` that are kept, in their order.
pub open spec fn kept_parts(parts: Seq<RawPart>, n: int) -> Seq<PartView>
    decreases n,
{
    if n <= 0 {
        Seq::empty()
    } else if part_is_kept(parts[n - 1].kind_field@) {
        kept_parts(parts, n - 1).push(parts[n - 1].part@)
    } else {
        kept_parts(parts, n - 1)
    }
}

/// What is kept of a gate's raw record.
pub open spec fn first_cassette(gp: OldGateParts) -> GatePartsView {
    GatePartsView { name: gp.name@, parts: gp.cassettes@[0].parts@, promoter: gp.promoter@ }
}

/// The gates among the first `n` that are kept, in their order, each with
/// the parts of its first cassette.
pub open spec fn kept_gate_parts(items: Seq<OldGateParts>, n: int) -> Seq<GatePartsView>
    decreases n,
{
    if n <= 0 {
        Seq::empty()
    } else if gate_is_kept(items[n - 1].name@) {
        kept_gate_parts(items, n - 1).push(first_cassette(items[n - 1]))
    } else {
        kept_gate_parts(items, n - 1)
    }
}

/// The views of parts.
pub open spec fn part_views(parts: Seq<Part>) -> Seq<PartView> {
    parts.map_values(|p: Part| p@)
}

/// The views of gate parts.
pub open spec fn gate_parts_views(items: Seq<GateParts>) -> Seq<GatePartsView> {
    items.map_values(|g: GateParts| g@)
}

/// Whether the name is that of a guide.
pub fn is_guide(name: &str) -> (b: bool)
    ensures
        b == is_guide_name(name@),
{
    let n = name.unicode_len();
    if n < 5 {
        return false;
    }
    if name.get_char(0) != 's' || name.get_char(1) != 'g' || name.get_char(2) != 'R'
        || name.get_char(3) != 'N' || name.get_char(4) != 'A' {
        return false;
    }
    n == 5 || name.get_char(5) == '_'
}

/// Whether a part whose record has this `kind` field is kept.
pub fn keeps_part(kind_field: &String) -> (b: bool)
    ensures
        b == part_is_kept(kind_field@),
{
    let guide = "SgRNA".to_owned();
    !(*kind_field == guide)
}

/// Whether a gate of the system `system` is listed by type: those of
/// `TetR` and `sensor` are.
pub fn lists_system(system: &String) -> (b: bool)
    ensures
        b == (system@ == "TetR"@ || system@ == "sensor"@),
{
    let first = "TetR".to_owned();
    let second = "sensor".to_owned();
    *system == first || *system == second
}

/// Whether a gate of this name is kept.
pub fn keeps_gate(name: &String) -> (b: bool)
    ensures
        b == gate_is_kept(name@),
{
    let first = "SicA_InvF".to_owned();
    let second = "ExsC_ExsDA".to_owned();
    if *name == first || *name == second {
        return false;
    }
    !is_guide(name.as_str())
}

/// A copy of the strings.
pub fn copy_strings(v: &Vec<String>) -> (res: Vec<String>)
    ensures
        res@ == v@,
{
    let mut res: Vec<String> = Vec::new();
    let mut i: usize = 0;
    while i < v.len()
        invariant
            i <= v.len(),
            res@ == v@.subrange(0, i as int),
        decreases v.len() - i,
    {
        res.push(v[i].clone());
        proof {
            assert(res@ =~= v@.subrange(0, i as int + 1));
        }
        i += 1;
    }
    proof {
        assert(v@.subrange(0, v@.len() as int) =~= v@);
    }
    res
}

/// Cleans the raw records. Of the parts, those are kept whose `kind` field
/// does not read `SgRNA`. Of the gates, those are kept that are not left out
/// by name and are no guides, each with its name, the parts of its first
/// cassette and its promoter. The order of the records is kept.
pub fn extract(parts: &Vec<RawPart>, gate_parts: &Vec<OldGateParts>) -> (out: Extracted)
    requires
        forall|i: int|
            0 <= i < gate_parts.len() && gate_is_kept((#[trigger] gate_parts[i]).name@)
                ==> gate_parts[i].cassettes.len() >= 1,
    ensures
        part_views(out.parts@) == kept_parts(parts@, parts.len() as int),
        gate_parts_views(out.gate_parts@) == kept_gate_parts(gate_parts@, gate_parts.len() as int),
{
    let mut kept: Vec<Part> = Vec::new();
    let mut i: usize = 0;
    while i < parts.len()
        invariant
            i <= parts.len(),
            part_views(kept@) == kept_parts(parts@, i as int),
        decreases parts.len() - i,
    {
        if keeps_part(&parts[i].kind_field) {
            let part = Part {
                kind: parts[i].part.kind,
                name: parts[i].part.name.clone(),
                seq: parts[i].part.seq.clone(),
            };
            let ghost before = kept@;
            kept.push(part);
            proof {
                assert(part_views(kept@) =~= part_views(before).push(part@));
            }
        }
        i += 1;
    }
    let mut gates: Vec<GateParts> = Vec::new();
    let mut j: usize = 0;
    while j < gate_parts.len()
        invariant
            j <= gate_parts.len(),
            gate_parts_views(gates@) == kept_gate_parts(gate_parts@, j as int),
            forall|i: int|
                0 <= i < gate_parts.len() && gate_is_kept((#[trigger] gate_parts[i]).name@)
                    ==> gate_parts[i].cassettes.len() >= 1,
        decreases gate_parts.len() - j,
    {
        let gp = &gate_parts[j];
        if keeps_gate(&gp.name) {
            let new_gate_parts = GateParts {
                name: gp.name.clone(),
                parts: copy_strings(&gp.cassettes[0].parts),
                promoter: gp.promoter.clone(),
            };
            let ghost before = gates@;
            gates.push(new_gate_parts);
            proof {
                assert(gate_parts_views(gates@) =~= gate_parts_views(before).push(
                    new_gate_parts@,
                ));
            }
        }
        j += 1;
    }
    Extracted { parts: kept, gate_parts: gates }
}

} // verus!
