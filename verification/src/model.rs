use vstd::prelude::*;

verus! {

/// Selects how the accumulated token stream is rendered.
#[derive(Clone, Copy)]
pub enum Backend {
    /// Collision-resistant one-way digest of the stream.
    Crypto,
    /// Verbatim dump of the stream, for diffing two runs.
    Raw,
}

/// Structural kind of a section, as the object-model adapter reports it.
#[derive(Clone, Copy, PartialEq, Eq, Structural)]
pub enum SectionKind {
    /// The section's bytes are present in the file.
    Content,
    /// The section only reserves zeroed space of a declared size.
    ZeroFill,
    /// Any other structural kind; fatal on an allow-listed section.
    Unsupported,
}

/// One named region of an object file.
pub struct Section {
    pub name: String,
    pub kind: SectionKind,
    /// Backing bytes; meaningful only for content sections.
    pub bytes: Vec<u8>,
    /// Declared size; meaningful only for zero-fill sections.
    pub size: u64,
}

/// One symbol-table row.
pub struct Symbol {
    pub name: String,
    pub value: u64,
    pub size: u64,
    /// True for an undefined external reference.
    pub imported: bool,
}

/// One relocation record; `symbol` indexes the object's symbol table.
#[derive(Clone, Copy)]
pub struct Relocation {
    pub offset: u64,
    pub symbol: usize,
    pub type_code: u32,
    pub addend: Option<i64>,
}

/// A member's tables, as handed over by the object-model adapter.
pub struct ParsedObject {
    pub sections: Vec<Section>,
    pub symbols: Vec<Symbol>,
    /// Relocation lists, one per relocation section, in the adapter's order.
    pub reloc_groups: Vec<Vec<Relocation>>,
}

/// One archive member: its name and, when it parsed as an object, its tables.
pub struct MemberRecord {
    pub name: String,
    pub object: Option<ParsedObject>,
}

/// A modelling-assumption breach; aborts the whole run.
#[derive(Clone, Copy, PartialEq, Eq, Structural, Debug)]
pub enum FingerprintError {
    /// An allow-listed section has a structural kind outside the model.
    UnknownSectionKind,
    /// A relocation carries an addend; the model assumes addend-less ones.
    RelocationAddend,
    /// The raw backend was fed a payload that is not 4-byte aligned.
    MisalignedPayload,
}

/// A string result seen through its characters.
pub open spec fn result_chars(r: Result<String, FingerprintError>) -> Result<
    Seq<char>,
    FingerprintError,
> {
    match r {
        Ok(s) => Ok(s@),
        Err(e) => Err(e),
    }
}

pub open spec fn wf_group(g: Seq<Relocation>, nsyms: int) -> bool {
    forall|i: int| 0 <= i < g.len() ==> (#[trigger] g[i]).symbol < nsyms
}

/// Every relocation's symbol index resolves in the symbol table.
pub open spec fn wf_object(o: ParsedObject) -> bool {
    forall|gi: int|
        0 <= gi < o.reloc_groups@.len() ==> wf_group(
            (#[trigger] o.reloc_groups@[gi])@,
            o.symbols@.len() as int,
        )
}

pub open spec fn wf_record(r: MemberRecord) -> bool {
    match r.object {
        Option::Some(o) => wf_object(o),
        Option::None => true,
    }
}

pub open spec fn wf_records(rs: Seq<MemberRecord>) -> bool {
    forall|i: int| 0 <= i < rs.len() ==> wf_record(#[trigger] rs[i])
}

/// Decides `wf_object`, so that an unverified caller can test the
/// precondition of the fingerprint functions before calling them.
pub fn object_well_formed(o: &ParsedObject) -> (r: bool)
    ensures
        r == wf_object(*o),
{
    let nsyms = o.symbols.len();
    let mut gi: usize = 0;
    while gi < o.reloc_groups.len()
        invariant
            gi <= o.reloc_groups@.len(),
            nsyms == o.symbols@.len(),
            forall|k: int|
                0 <= k < gi ==> wf_group((#[trigger] o.reloc_groups@[k])@, nsyms as int),
        decreases o.reloc_groups@.len() - gi,
    {
        let g = &o.reloc_groups[gi];
        let mut i: usize = 0;
        while i < g.len()
            invariant
                i <= g@.len(),
                nsyms == o.symbols@.len(),
                gi < o.reloc_groups@.len(),
                *g == o.reloc_groups@[gi as int],
                forall|k: int| 0 <= k < i ==> (#[trigger] g@[k]).symbol < nsyms,
            decreases g@.len() - i,
        {
            if g[i].symbol >= nsyms {
                proof {
                    assert(!wf_group(g@, nsyms as int));
                    assert(o.reloc_groups@[gi as int] == *g);
                }
                return false;
            }
            i += 1;
        }
        gi += 1;
    }
    true
}

/// Decides `wf_records`.
pub fn records_well_formed(rs: &Vec<MemberRecord>) -> (r: bool)
    ensures
        r == wf_records(rs@),
{
    let mut i: usize = 0;
    while i < rs.len()
        invariant
            i <= rs@.len(),
            forall|k: int| 0 <= k < i ==> wf_record(#[trigger] rs@[k]),
        decreases rs@.len() - i,
    {
        match &rs[i].object {
            Option::Some(o) => {
                if !object_well_formed(o) {
                    return false;
                }
            },
            Option::None => {},
        }
        i += 1;
    }
    true
}

} // verus!
