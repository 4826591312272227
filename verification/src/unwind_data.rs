//! The unwind tables and the code of a set of ELF files.
use crate::cfi_section::EhBases;
use crate::cfi_table::{CfiContents, CfiSection, CfiTable, Row, RowRules, Table};
use crate::object_file::{
    header, object_header, object_section, object_sections, section_by_name, sections, Header,
    Section, SectionContents, SectionKind,
};
use vstd::prelude::*;

verus! {

/// Which unwind sections to use.
#[derive(Clone, Copy, Debug, PartialEq, Eq)]
pub enum UnwindTables {
    /// Both kinds; `.debug_frame` takes precedence over `.eh_frame`.
    Auto,
    /// Only `.debug_frame` sections.
    DebugFrame,
    /// Only `.eh_frame` sections.
    EhFrame,
}

impl Default for UnwindTables {
    /// Uses both kinds.
    fn default() -> (tables: Self)
        ensures
            tables == UnwindTables::Auto,
    {
        UnwindTables::Auto
    }
}

/// What a [`CodeBlock`] holds.
#[verifier::ext_equal]
pub struct CodeContents {
    /// The address of the first byte.
    pub start: u64,
    /// The code.
    pub bytes: Seq<u8>,
}

/// An executable section.
#[derive(Clone, Copy, Debug, PartialEq, Eq)]
pub struct CodeBlock<'a> {
    /// The address of the first byte.
    pub start: u64,
    /// The code.
    pub bytes: &'a [u8],
}

impl<'a> View for CodeBlock<'a> {
    type V = CodeContents;

    open spec fn view(&self) -> CodeContents {
        CodeContents { start: self.start, bytes: self.bytes@ }
    }
}

/// What the unwinder knows of the program that is unwound.
#[verifier::ext_equal]
pub struct UnwindData {
    /// The unwind rules in effect at an address.
    pub rows: spec_fn(u64) -> Option<RowRules>,
    /// The executable sections.
    pub code: Seq<CodeContents>,
}

/// A stack unwinder using the call frame information (CFI) of one or more ELF
/// files.
pub struct Unwinder<'a, T> {
    /// The unwind sections.
    pub tables: Vec<T>,
    /// The executable sections.
    pub code: Vec<CodeBlock<'a>>,
}

impl<'a, T: CfiTable> View for Unwinder<'a, T> {
    type V = UnwindData;

    open spec fn view(&self) -> UnwindData {
        UnwindData { rows: first_row(self.tables@), code: code_contents(self.code@) }
    }
}

/// The executable sections as their views.
pub open spec fn code_contents(code: Seq<CodeBlock>) -> Seq<CodeContents> {
    code.map_values(|block: CodeBlock| block@)
}

/// The rules in effect at an address per the first table that covers it.
pub open spec fn first_row<T: CfiTable>(tables: Seq<T>) -> spec_fn(u64) -> Option<RowRules> {
    |pc: u64| first_row_at(tables, pc)
}

/// The rules in effect at `pc` per the first table that covers it.
pub open spec fn first_row_at<T: CfiTable>(tables: Seq<T>, pc: u64) -> Option<RowRules>
    decreases tables.len(),
{
    if tables.len() == 0 {
        None
    } else {
        match tables[0].rules_at(pc) {
            Some(row) => Some(row),
            None => first_row_at(tables.drop_first(), pc),
        }
    }
}

impl<'a, T: CfiTable> Unwinder<'a, T> {
    /// Returns the unwind rules in effect at `pc`.
    pub fn row(&self, pc: u64) -> (row: Option<Row>)
        ensures
            row matches Some(r) ==> r.wf() && (self@.rows)(pc) == Some(r@),
            row is None ==> (self@.rows)(pc) is None,
    {
        let mut i: usize = 0;
        assert(self.tables@.skip(0) =~= self.tables@);
        while i < self.tables.len()
            invariant
                0 <= i <= self.tables@.len(),
                (self@.rows)(pc) == first_row_at(self.tables@.skip(i as int), pc),
            decreases self.tables@.len() - i,
        {
            assert(self.tables@.skip(i as int).drop_first() =~= self.tables@.skip(i + 1));
            let row = self.tables[i].row(pc);
            if row.is_some() {
                return row;
            }
            i += 1;
        }
        None
    }
}

/// The contents of a section that isn't empty.
pub open spec fn non_empty(section: Option<SectionContents>) -> Option<Seq<u8>> {
    match section {
        Some(SectionContents { data: Some(data), .. }) if data.len() > 0 => Some(data),
        _ => None,
    }
}

/// The address of a section.
pub open spec fn address_of(section: Option<SectionContents>) -> Option<u64> {
    match section {
        Some(section) => Some(section.address),
        None => None,
    }
}

/// The executable sections among the given ones.
pub open spec fn text_sections(sections: Seq<SectionContents>) -> Seq<CodeContents>
    decreases sections.len(),
{
    if sections.len() == 0 {
        seq![]
    } else {
        let rest = text_sections(sections.drop_last());
        match non_empty(Some(sections.last())) {
            Some(bytes) if sections.last().kind == SectionKind::Text => rest.push(
                CodeContents { start: sections.last().address, bytes },
            ),
            _ => rest,
        }
    }
}

/// The size of an address in an object file with the given header.
pub open spec fn address_size(header: Header) -> u8 {
    match header.address_size {
        Some(size) => size,
        None => 4,
    }
}

/// The unwind section in the `.debug_frame` of an object file, if `tables`
/// selects it and it isn't empty.
pub open spec fn debug_section(
    header: Header,
    debug_frame: Option<SectionContents>,
    tables: UnwindTables,
) -> Option<CfiContents> {
    match non_empty(debug_frame) {
        Some(data) if tables is Auto || tables is DebugFrame => Some(
            CfiContents {
                data,
                little_endian: header.little_endian,
                address_size: address_size(header),
                eh_bases: None,
            },
        ),
        _ => None,
    }
}

/// The unwind section in the `.eh_frame` of an object file, if `tables` selects
/// it and it isn't empty. It uses PC-relative pointer encodings, so the section
/// addresses are needed to decode it.
pub open spec fn eh_section(
    header: Header,
    eh_frame: Option<SectionContents>,
    text: Option<u64>,
    got: Option<u64>,
    tables: UnwindTables,
) -> Option<CfiContents> {
    match (non_empty(eh_frame), address_of(eh_frame)) {
        (Some(data), Some(address)) if tables is Auto || tables is EhFrame => Some(
            CfiContents {
                data,
                little_endian: header.little_endian,
                address_size: address_size(header),
                eh_bases: Some(EhBases { eh_frame: address, text, got }),
            },
        ),
        _ => None,
    }
}

/// A list of the section, if there is one.
pub open spec fn listed(section: Option<CfiContents>) -> Seq<CfiContents> {
    match section {
        Some(section) => seq![section],
        None => seq![],
    }
}

/// The unwind sections of an ELF file that `tables` selects; none for a file
/// that can't be parsed.
pub open spec fn elf_tables(elf: Seq<u8>, tables: UnwindTables) -> Seq<CfiContents> {
    match object_header(elf) {
        Some(header) => listed(
            debug_section(header, object_section(elf, ".debug_frame"@), tables),
        ) + listed(
            eh_section(
                header,
                object_section(elf, ".eh_frame"@),
                address_of(object_section(elf, ".text"@)),
                address_of(object_section(elf, ".got"@)),
                tables,
            ),
        ),
        None => seq![],
    }
}

/// The executable sections of an ELF file; none for a file that can't be
/// parsed.
pub open spec fn elf_code(elf: Seq<u8>) -> Seq<CodeContents> {
    match object_header(elf) {
        Some(_) => text_sections(object_sections(elf)),
        None => seq![],
    }
}

/// The unwind sections of ELF files, in the order of the files.
pub open spec fn all_tables(elfs: Seq<Seq<u8>>, tables: UnwindTables) -> Seq<CfiContents>
    decreases elfs.len(),
{
    if elfs.len() == 0 {
        seq![]
    } else {
        all_tables(elfs.drop_last(), tables) + elf_tables(elfs.last(), tables)
    }
}

/// The executable sections of ELF files, in the order of the files.
pub open spec fn all_code(elfs: Seq<Seq<u8>>) -> Seq<CodeContents>
    decreases elfs.len(),
{
    if elfs.len() == 0 {
        seq![]
    } else {
        all_code(elfs.drop_last()) + elf_code(elfs.last())
    }
}

/// The rules in effect at `pc` per the first unwind section that covers it.
pub open spec fn section_rules(sections: Seq<CfiContents>, pc: u64) -> Option<RowRules>
    decreases sections.len(),
{
    if sections.len() == 0 {
        None
    } else {
        match sections[0].row(pc) {
            Some(row) => Some(row),
            None => section_rules(sections.drop_first(), pc),
        }
    }
}

/// What an unwinder knows that was made from the given ELF files.
pub open spec fn unwind_data(elfs: Seq<Seq<u8>>, tables: UnwindTables) -> UnwindData {
    UnwindData {
        rows: |pc: u64| section_rules(all_tables(elfs, tables), pc),
        code: all_code(elfs),
    }
}

/// The contents of ELF files.
pub open spec fn elf_contents(elfs: Seq<&[u8]>) -> Seq<Seq<u8>> {
    elfs.map_values(|elf: &[u8]| elf@)
}

/// Lists the executable sections among the given ones.
pub fn list_text_sections<'a>(sections: &Vec<Section<'a>>) -> (code: Vec<CodeBlock<'a>>)
    ensures
        code_contents(code@) == text_sections(sections@.map_values(|s: Section| s@)),
{
    let ghost views = sections@.map_values(|s: Section| s@);
    let mut code: Vec<CodeBlock<'a>> = Vec::new();
    let mut i: usize = 0;
    assert(views.take(0) =~= seq![]);
    assert(code_contents(code@) =~= seq![]);
    while i < sections.len()
        invariant
            0 <= i <= sections@.len(),
            views == sections@.map_values(|s: Section| s@),
            code_contents(code@) == text_sections(views.take(i as int)),
        decreases sections@.len() - i,
    {
        let section = sections[i];
        assert(views.take(i + 1).drop_last() =~= views.take(i as int));
        assert(views.take(i + 1).last() == section@);
        if let Some(bytes) = section.data {
            if section.kind == SectionKind::Text && bytes.len() > 0 {
                let block = CodeBlock { start: section.address, bytes };
                assert(code_contents(code@.push(block)) =~= code_contents(code@).push(block@));
                code.push(block);
            }
        }
        i += 1;
    }
    assert(views.take(views.len() as int) =~= views);
    code
}

/// The contents of a section that may be missing.
pub open spec fn contents(section: Option<Section>) -> Option<SectionContents> {
    match section {
        Some(section) => Some(section@),
        None => None,
    }
}

/// Makes an unwind section of the `.debug_frame` of an object file, if `tables`
/// selects it and it isn't empty.
pub fn debug_frame_section<'a>(
    header: Header,
    debug_frame: Option<Section<'a>>,
    tables: UnwindTables,
) -> (section: Option<CfiSection<'a>>)
    ensures
        debug_section(header, contents(debug_frame), tables) == (match section {
            Some(section) => Some(section@),
            None => None,
        }),
{
    let Some(Section { data: Some(data), .. }) = debug_frame else {
        return None;
    };
    if !matches!(tables, UnwindTables::Auto | UnwindTables::DebugFrame) || data.len() == 0 {
        return None;
    }
    Some(
        CfiSection {
            data,
            little_endian: header.little_endian,
            address_size: match header.address_size {
                Some(size) => size,
                None => 4,
            },
            eh_bases: None,
        },
    )
}

/// Makes an unwind section of the `.eh_frame` of an object file, if `tables`
/// selects it and it isn't empty.
pub fn eh_frame_section<'a>(
    header: Header,
    eh_frame: Option<Section<'a>>,
    text: Option<u64>,
    got: Option<u64>,
    tables: UnwindTables,
) -> (section: Option<CfiSection<'a>>)
    ensures
        eh_section(header, contents(eh_frame), text, got, tables) == (match section {
            Some(section) => Some(section@),
            None => None,
        }),
{
    let Some(Section { address, data: Some(data), .. }) = eh_frame else {
        return None;
    };
    if !matches!(tables, UnwindTables::Auto | UnwindTables::EhFrame) || data.len() == 0 {
        return None;
    }
    Some(
        CfiSection {
            data,
            little_endian: header.little_endian,
            address_size: match header.address_size {
                Some(size) => size,
                None => 4,
            },
            eh_bases: Some(EhBases { eh_frame: address, text, got }),
        },
    )
}

/// Finds the address of a section of an object file.
fn section_address(elf: &[u8], name: &str) -> (address: Option<u64>)
    ensures
        address == address_of(object_section(elf@, name@)),
{
    match section_by_name(elf, name) {
        Some(section) => Some(section.address),
        None => None,
    }
}

/// The unwind sections as their views.
pub open spec fn table_views(tables: Seq<Table>) -> Seq<CfiContents> {
    tables.map_values(|table: Table| table@)
}

/// The rules that a list of tables has in effect at an address are those of
/// their sections.
proof fn lemma_first_row(tables: Seq<Table>, pc: u64)
    ensures
        first_row_at(tables, pc) == section_rules(table_views(tables), pc),
    decreases tables.len(),
{
    if tables.len() > 0 {
        assert(table_views(tables).drop_first() =~= table_views(tables.drop_first()));
        lemma_first_row(tables.drop_first(), pc);
    }
}

impl<'a> Unwinder<'a, Table<'a>> {
    /// Indexes the unwind sections selected by `tables` of the given ELF
    /// files. Files or sections which can't be parsed are skipped.
    ///
    /// Within an ELF file, `.debug_frame` takes precedence over `.eh_frame`;
    /// the files are consulted in the given order.
    pub fn new(elfs: &[&'a [u8]], tables: UnwindTables) -> (unwinder: Self)
        ensures
            unwinder@ == unwind_data(elf_contents(elfs@), tables),
    {
        let ghost contents = elf_contents(elfs@);
        let mut unwinder = Unwinder { tables: Vec::new(), code: Vec::new() };
        let mut i: usize = 0;
        assert(contents.take(0) =~= seq![]);
        assert(table_views(unwinder.tables@) =~= seq![]);
        assert(code_contents(unwinder.code@) =~= seq![]);
        while i < elfs.len()
            invariant
                0 <= i <= elfs@.len(),
                contents == elf_contents(elfs@),
                table_views(unwinder.tables@) == all_tables(contents.take(i as int), tables),
                code_contents(unwinder.code@) == all_code(contents.take(i as int)),
            decreases elfs@.len() - i,
        {
            assert(contents.take(i + 1).drop_last() =~= contents.take(i as int));
            assert(contents.take(i + 1).last() == elfs@[i as int]@);
            unwinder.add(elfs[i], tables);
            i += 1;
        }
        proof {
            assert(contents.take(contents.len() as int) =~= contents);
            assert forall|pc: u64| #[trigger]
                (unwinder@.rows)(pc) == (unwind_data(contents, tables).rows)(pc) by {
                lemma_first_row(unwinder.tables@, pc);
            }
            assert(unwinder@.rows =~= unwind_data(contents, tables).rows);
        }
        unwinder
    }

    /// Indexes the unwind sections of one more ELF file.
    fn add(&mut self, elf: &'a [u8], tables: UnwindTables)
        ensures
            table_views(final(self).tables@) == table_views(old(self).tables@) + elf_tables(
                elf@,
                tables,
            ),
            code_contents(final(self).code@) == code_contents(old(self).code@) + elf_code(elf@),
    {
        let Some(header) = header(elf) else {
            return;
        };
        let mut code = list_text_sections(&sections(elf));
        self.code.append(&mut code);
        assert(code_contents(self.code@) =~= code_contents(old(self).code@) + elf_code(elf@));
        let debug_frame = section_by_name(elf, ".debug_frame");
        if let Some(section) = debug_frame_section(header, debug_frame, tables) {
            let table = Table::new(section);
            assert(table_views(self.tables@.push(table)) =~= table_views(self.tables@).push(
                section@,
            ));
            self.tables.push(table);
        }
        let eh_frame = section_by_name(elf, ".eh_frame");
        let text = section_address(elf, ".text");
        let got = section_address(elf, ".got");
        if let Some(section) = eh_frame_section(header, eh_frame, text, got, tables) {
            let table = Table::new(section);
            assert(table_views(self.tables@.push(table)) =~= table_views(self.tables@).push(
                section@,
            ));
            self.tables.push(table);
        }
        assert(table_views(self.tables@) =~= table_views(old(self).tables@) + elf_tables(
            elf@,
            tables,
        ));
    }
}

/// The rules of a concatenation of sections.
proof fn lemma_section_rules(first: Seq<CfiContents>, second: Seq<CfiContents>, pc: u64)
    ensures
        section_rules(first + second, pc) == (match section_rules(first, pc) {
            Some(row) => Some(row),
            None => section_rules(second, pc),
        }),
    decreases first.len(),
{
    if first.len() == 0 {
        assert(first + second =~= second);
    } else {
        assert((first + second).drop_first() =~= first.drop_first() + second);
        lemma_section_rules(first.drop_first(), second, pc);
    }
}

/// The sections of a concatenation of files.
proof fn lemma_all_tables(first: Seq<Seq<u8>>, second: Seq<Seq<u8>>, tables: UnwindTables)
    ensures
        all_tables(first + second, tables) == all_tables(first, tables) + all_tables(
            second,
            tables,
        ),
        all_code(first + second) == all_code(first) + all_code(second),
    decreases second.len(),
{
    if second.len() == 0 {
        assert(first + second =~= first);
        assert(all_tables(first, tables) + seq![] =~= all_tables(first, tables));
        assert(all_code(first) + seq![] =~= all_code(first));
    } else {
        let rest = second.drop_last();
        assert((first + second).drop_last() =~= first + rest);
        lemma_all_tables(first, rest, tables);
        assert(all_tables(first, tables) + all_tables(rest, tables) + elf_tables(
            second.last(),
            tables,
        ) =~= all_tables(first, tables) + all_tables(second, tables));
        assert(all_code(first) + all_code(rest) + elf_code(second.last()) =~= all_code(first)
            + all_code(second));
    }
}

/// The ELF files are consulted in the given order: the rules in effect at an
/// address are those of the first files, or else those of the others.
pub proof fn law_files_are_consulted_in_order(
    first: Seq<Seq<u8>>,
    second: Seq<Seq<u8>>,
    tables: UnwindTables,
    pc: u64,
)
    ensures
        (unwind_data(first + second, tables).rows)(pc) == (match (unwind_data(
            first,
            tables,
        ).rows)(pc) {
            Some(row) => Some(row),
            None => (unwind_data(second, tables).rows)(pc),
        }),
        unwind_data(first + second, tables).code == unwind_data(first, tables).code + unwind_data(
            second,
            tables,
        ).code,
{
    lemma_all_tables(first, second, tables);
    lemma_section_rules(all_tables(first, tables), all_tables(second, tables), pc);
}

/// Within an ELF file, `.debug_frame` takes precedence over `.eh_frame`.
pub proof fn law_debug_frame_takes_precedence(elf: Seq<u8>, pc: u64)
    ensures
        (unwind_data(seq![elf], UnwindTables::Auto).rows)(pc) == (match (unwind_data(
            seq![elf],
            UnwindTables::DebugFrame,
        ).rows)(pc) {
            Some(row) => Some(row),
            None => (unwind_data(seq![elf], UnwindTables::EhFrame).rows)(pc),
        }),
{
    lemma_one_file(elf, UnwindTables::Auto);
    lemma_one_file(elf, UnwindTables::DebugFrame);
    lemma_one_file(elf, UnwindTables::EhFrame);
    let debug_tables = elf_tables(elf, UnwindTables::DebugFrame);
    let eh_tables = elf_tables(elf, UnwindTables::EhFrame);
    assert(elf_tables(elf, UnwindTables::Auto) =~= debug_tables + eh_tables);
    lemma_section_rules(debug_tables, eh_tables, pc);
}

/// The sections of a single file.
proof fn lemma_one_file(elf: Seq<u8>, tables: UnwindTables)
    ensures
        all_tables(seq![elf], tables) == elf_tables(elf, tables),
        all_code(seq![elf]) == elf_code(elf),
{
    assert(seq![elf].drop_last() =~= seq![]);
    assert(all_tables(seq![elf].drop_last(), tables) =~= seq![]);
    assert(all_code(seq![elf].drop_last()) =~= seq![]);
    assert(seq![] + elf_tables(elf, tables) =~= elf_tables(elf, tables));
    assert(seq![] + elf_code(elf) =~= elf_code(elf));
}

/// Files which can't be parsed are skipped.
pub proof fn law_unparsable_files_are_skipped(
    first: Seq<Seq<u8>>,
    elf: Seq<u8>,
    second: Seq<Seq<u8>>,
    tables: UnwindTables,
)
    requires
        object_header(elf) is None,
    ensures
        unwind_data(first + seq![elf] + second, tables) == unwind_data(first + second, tables),
{
    lemma_all_tables(first + seq![elf], second, tables);
    lemma_all_tables(first, seq![elf], tables);
    lemma_all_tables(first, second, tables);
    lemma_one_file(elf, tables);
    assert(all_tables(first, tables) + seq![] =~= all_tables(first, tables));
    assert(all_code(first) + seq![] =~= all_code(first));
    assert(unwind_data(first + seq![elf] + second, tables).rows =~= unwind_data(
        first + second,
        tables,
    ).rows);
}

} // verus!
