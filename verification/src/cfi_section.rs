//! The unwind sections of an ELF file, as the `gimli` crate decodes them.
//!
//! The call frame information (CFI) is read from `.debug_frame`, which the
//! compiler emits together with debug info, or from `.eh_frame`, which is
//! emitted instead when unwind tables are requested. Both encode the same
//! rules.
use gimli::CfaRule::RegisterAndOffset;
use gimli::RegisterRule::{Constant, Offset, Register, SameValue, Undefined, ValOffset};
use gimli::RunTimeEndian::{Big, Little};
use gimli::{
    BaseAddresses, CieOrFde, DebugFrame, DebugFrameOffset, EhFrame, EhFrameOffset,
    SectionBaseAddresses, UnwindContext, UnwindSection, UnwindTableRow,
};
use vstd::prelude::*;

verus! {

/// How to compute the canonical frame address (CFA) of a frame.
#[derive(Clone, Copy, Debug, PartialEq, Eq)]
pub enum Cfa {
    /// The CFA is at an offset from the value of a register.
    RegisterAndOffset { register: u16, offset: i64 },
    /// The CFA is the result of a DWARF expression.
    Expression,
}

/// How to find the value that a register had in the caller.
#[derive(Clone, Copy, Debug, PartialEq, Eq)]
pub enum Rule {
    /// The value is lost.
    Undefined,
    /// The register still holds it.
    SameValue,
    /// It was saved at an offset from the CFA.
    Offset(i64),
    /// It is at an offset from the CFA.
    ValOffset(i64),
    /// It is in another register.
    Register(u16),
    /// It is a constant.
    Constant(u64),
    /// A DWARF expression, or a rule of the architecture.
    Unsupported,
}

/// A frame description entry (FDE): the unwind rules of one function.
#[derive(Clone, Copy, Debug, PartialEq, Eq)]
pub struct Fde {
    /// Where the entry is in its section.
    pub offset: usize,
    /// The first address of the function.
    pub start: u64,
    /// One more than the last address of the function.
    pub end: u64,
    /// The size of the function.
    pub len: u64,
}

/// An entry of an unwind section.
#[derive(Clone, Copy, Debug, PartialEq, Eq)]
pub enum Entry {
    /// A common information entry, which frame description entries refer to.
    Cie,
    /// A frame description entry.
    Fde(Fde),
    /// A frame description entry that can't be parsed.
    BadFde,
    /// Something that isn't an entry; nothing after it can be found.
    Malformed,
}

/// The base addresses for the pointers in an `.eh_frame` section.
#[derive(Clone, Copy, Debug, PartialEq, Eq)]
pub struct EhBases {
    /// The address of the `.eh_frame` section.
    pub eh_frame: u64,
    /// The address of the `.text` section.
    pub text: Option<u64>,
    /// The address of the `.got` section.
    pub got: Option<u64>,
}

/// The addresses a row of an unwind table applies to, and its CFA rule.
#[derive(Clone, Copy, Debug, PartialEq, Eq)]
pub struct RowHead {
    /// The first address.
    pub start: u64,
    /// One more than the last address.
    pub end: u64,
    /// How to compute the CFA.
    pub cfa: Cfa,
}

/// What a [`CfiRow`] holds.
#[verifier::ext_equal]
pub struct TableRow {
    /// The addresses the row applies to, and its CFA rule.
    pub head: RowHead,
    /// The rules of the registers that have one.
    pub rules: Map<u16, Rule>,
}

/// A row of an unwind table: a `gimli::UnwindTableRow`, which is a collection
/// of register rules.
#[verifier::external_body]
pub struct CfiRow {
    row: UnwindTableRow<usize>,
}

/// The register rules in a row.
pub uninterp spec fn row_rules(row: CfiRow) -> Map<u16, Rule>;

/// The addresses a row applies to, and its CFA rule.
pub uninterp spec fn row_head(row: CfiRow) -> RowHead;

impl View for CfiRow {
    type V = TableRow;

    open spec fn view(&self) -> TableRow {
        TableRow { head: row_head(*self), rules: row_rules(*self) }
    }
}

/// Whether `list` holds each rule of `rules` once, in some order.
pub open spec fn lists_rules(list: Seq<(u16, Rule)>, rules: Map<u16, Rule>) -> bool {
    &&& forall|i: int|
        #![trigger list[i]]
        0 <= i < list.len() ==> rules.dom().contains(list[i].0) && rules[list[i].0] == list[i].1
    &&& forall|i: int, j: int| 0 <= i < j < list.len() ==> list[i].0 != list[j].0
    &&& forall|reg: u16|
        rules.dom().contains(reg) ==> exists|i: int|
            0 <= i < list.len() && (#[trigger] list[i]).0 == reg
}

/// The entries of a `.debug_frame` section, in the order of the section, up to
/// the first malformed one.
pub uninterp spec fn debug_frame_entries(
    data: Seq<u8>,
    little_endian: bool,
    address_size: u8,
) -> Seq<Entry>;

/// The entries of an `.eh_frame` section, in the order of the section, up to
/// the first malformed one.
pub uninterp spec fn eh_frame_entries(
    data: Seq<u8>,
    little_endian: bool,
    address_size: u8,
    bases: EhBases,
) -> Seq<Entry>;

/// The rows of the unwind table of the FDE at some offset in a `.debug_frame`
/// section, up to the first that can't be evaluated.
pub uninterp spec fn debug_frame_rows(
    data: Seq<u8>,
    little_endian: bool,
    address_size: u8,
    fde: usize,
) -> Option<Seq<TableRow>>;

/// The rows of the unwind table of the FDE at some offset in an `.eh_frame`
/// section, up to the first that can't be evaluated.
pub uninterp spec fn eh_frame_rows(
    data: Seq<u8>,
    little_endian: bool,
    address_size: u8,
    bases: EhBases,
    fde: usize,
) -> Option<Seq<TableRow>>;

/// What a table of rows holds.
pub open spec fn table_rows(rows: Seq<CfiRow>) -> Seq<TableRow> {
    rows.map_values(|row: CfiRow| row@)
}

/// Reads the addresses and the CFA rule of a row, with
/// `UnwindTableRow::start_address`, `end_address` and `cfa`.
#[verifier::external_body]
pub(crate) fn read_head(row: &CfiRow) -> (head: RowHead)
    ensures
        head == row_head(*row),
{
    RowHead {
        start: row.row.start_address(),
        end: row.row.end_address(),
        cfa: match *row.row.cfa() {
            RegisterAndOffset { register, offset } => Cfa::RegisterAndOffset {
                register: register.0,
                offset,
            },
            gimli::CfaRule::Expression(_) => Cfa::Expression,
        },
    }
}

/// Lists the register rules of a row, with `UnwindTableRow::registers`. A
/// register has at most one rule.
#[verifier::external_body]
pub(crate) fn read_rules(row: &CfiRow) -> (rules: Vec<(u16, Rule)>)
    ensures
        lists_rules(rules@, row_rules(*row)),
{
    row.row.registers().map(
        |(register, rule)|
            (
                register.0,
                match *rule {
                    Undefined => Rule::Undefined,
                    SameValue => Rule::SameValue,
                    Offset(offset) => Rule::Offset(offset),
                    ValOffset(offset) => Rule::ValOffset(offset),
                    Register(other) => Rule::Register(other.0),
                    Constant(value) => Rule::Constant(value),
                    _ => Rule::Unsupported,
                },
            ),
    ).collect()
}

/// Makes an entry of a frame description entry.
fn fde_entry(offset: usize, start: u64, end: u64, len: u64) -> (entry: Entry)
    ensures
        entry == Entry::Fde(Fde { offset, start, end, len }),
{
    Entry::Fde(Fde { offset, start, end, len })
}

/// Lists the entries of a `.debug_frame` section, with `UnwindSection::entries`
/// and `PartialFrameDescriptionEntry::parse`.
///
/// How the section is decoded is left to the `gimli` crate, and only named here.
/// It can't handle other sizes of addresses than those asked for.
#[verifier::external_body]
pub(crate) fn read_debug_frame_entries(data: &[u8], little_endian: bool, address_size: u8) -> (
    entries: Vec<Entry>)
    requires
        address_size == 1 || address_size == 2 || address_size == 4 || address_size == 8,
    ensures
        entries@ == debug_frame_entries(data@, little_endian, address_size),
{
    let mut frame = DebugFrame::new(data, if little_endian { Little } else { Big });
    frame.set_address_size(address_size);
    frame.entries(&BaseAddresses::default()).map(|entry| match entry {
        Err(_) => Entry::Malformed,
        Ok(CieOrFde::Cie(_)) => Entry::Cie,
        Ok(CieOrFde::Fde(partial)) => match partial.parse(DebugFrame::cie_from_offset) {
            Err(_) => Entry::BadFde,
            Ok(fde) => fde_entry(fde.offset(), fde.initial_address(), fde.end_address(), fde.len()),
        },
    }).collect()
}

/// Lists the entries of an `.eh_frame` section, with `UnwindSection::entries` and
/// `PartialFrameDescriptionEntry::parse`.
///
/// How the section is decoded is left to the `gimli` crate, and only named here.
/// It can't handle other sizes of addresses than those asked for.
#[verifier::external_body]
pub(crate) fn read_eh_frame_entries(
    data: &[u8],
    little_endian: bool,
    address_size: u8,
    bases: EhBases,
) -> (entries: Vec<Entry>)
    requires
        address_size == 1 || address_size == 2 || address_size == 4 || address_size == 8,
    ensures
        entries@ == eh_frame_entries(data@, little_endian, address_size, bases),
{
    let mut frame = EhFrame::new(data, if little_endian { Little } else { Big });
    frame.set_address_size(address_size);
    let EhBases { eh_frame, text, got } = bases;
    let eh_frame = SectionBaseAddresses { section: Some(eh_frame), text, data: got };
    frame.entries(&BaseAddresses { eh_frame, ..Default::default() }).map(|entry| match entry {
        Err(_) => Entry::Malformed,
        Ok(CieOrFde::Cie(_)) => Entry::Cie,
        Ok(CieOrFde::Fde(partial)) => match partial.parse(EhFrame::cie_from_offset) {
            Err(_) => Entry::BadFde,
            Ok(fde) => fde_entry(fde.offset(), fde.initial_address(), fde.end_address(), fde.len()),
        },
    }).collect()
}

/// Lists the rows of the unwind table of the FDE at offset `fde` of a
/// `.debug_frame` section, with `UnwindSection::fde_from_offset`,
/// `FrameDescriptionEntry::rows` and `UnwindTable::next_row`.
///
/// How the table is evaluated is left to the `gimli` crate, and only named here.
#[verifier::external_body]
pub(crate) fn read_debug_frame_rows(
    data: &[u8],
    little_endian: bool,
    address_size: u8,
    fde: usize,
) -> (rows: Option<Vec<CfiRow>>)
    requires
        address_size == 1 || address_size == 2 || address_size == 4 || address_size == 8,
    ensures
        debug_frame_rows(data@, little_endian, address_size, fde) == (match rows {
            Some(rows) => Some(table_rows(rows@)),
            None => None,
        }),
{
    let mut frame = DebugFrame::new(data, if little_endian { Little } else { Big });
    frame.set_address_size(address_size);
    let bases = BaseAddresses::default();
    let at = DebugFrameOffset(fde);
    let fde = frame.fde_from_offset(&bases, at, DebugFrame::cie_from_offset).ok()?;
    let mut context = UnwindContext::new();
    let mut table = fde.rows(&frame, &bases, &mut context).ok()?;
    let mut rows = Vec::new();
    while let Ok(Some(row)) = table.next_row() {
        rows.push(CfiRow { row: row.clone() });
    }
    Some(rows)
}

/// Lists the rows of the unwind table of the FDE at offset `fde` of an
/// `.eh_frame` section, with `UnwindSection::fde_from_offset`,
/// `FrameDescriptionEntry::rows` and `UnwindTable::next_row`.
///
/// How the table is evaluated is left to the `gimli` crate, and only named here.
#[verifier::external_body]
pub(crate) fn read_eh_frame_rows(
    data: &[u8],
    little_endian: bool,
    address_size: u8,
    bases: EhBases,
    fde: usize,
) -> (rows: Option<Vec<CfiRow>>)
    requires
        address_size == 1 || address_size == 2 || address_size == 4 || address_size == 8,
    ensures
        eh_frame_rows(data@, little_endian, address_size, bases, fde) == (match rows {
            Some(rows) => Some(table_rows(rows@)),
            None => None,
        }),
{
    let mut frame = EhFrame::new(data, if little_endian { Little } else { Big });
    frame.set_address_size(address_size);
    let EhBases { eh_frame, text, got } = bases;
    let eh_frame = SectionBaseAddresses { section: Some(eh_frame), text, data: got };
    let bases = BaseAddresses { eh_frame, ..Default::default() };
    let at = EhFrameOffset(fde);
    let fde = frame.fde_from_offset(&bases, at, EhFrame::cie_from_offset).ok()?;
    let mut context = UnwindContext::new();
    let mut table = fde.rows(&frame, &bases, &mut context).ok()?;
    let mut rows = Vec::new();
    while let Ok(Some(row)) = table.next_row() {
        rows.push(CfiRow { row: row.clone() });
    }
    Some(rows)
}

} // verus!
