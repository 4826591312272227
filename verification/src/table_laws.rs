//! What holds of the unwind rules that are found for an address.
use crate::cfi_section::{Cfa, Entry, Fde, TableRow};
use crate::cfi_table::{
    covering_fde, covers, last_sp_offset, law_covering_fde_is_found, law_found_fde_covers_pc,
    law_index_is_sorted, law_index_keeps_fdes, row_at, row_index, sorted_fdes, starts_up_to,
    usable_fdes, CfiContents,
};
use crate::object_file::{
    object_header, object_section, object_sections, Header, SectionContents, SectionKind,
};
use crate::riscv::wrap;
use crate::unwind_data::{
    all_tables, elf_code, elf_tables, section_rules, text_sections, unwind_data, CodeContents,
    UnwindTables,
};
use vstd::prelude::*;

verus! {

/// The FDEs that are indexed are those that aren't empty, up to the first malformed entry;
/// other entries don't matter.
pub proof fn law_fdes_are_indexed(entries: Seq<Entry>, entry: Entry)
    ensures
        usable_fdes(Seq::<Entry>::empty()).len() == 0,
        usable_fdes(seq![entry] + entries) == (match entry {
            Entry::Malformed => Seq::<Fde>::empty(),
            Entry::Fde(fde) => if fde.len == 0 {
                usable_fdes(entries)
            } else {
                seq![fde] + usable_fdes(entries)
            },
            Entry::Cie | Entry::BadFde => usable_fdes(entries),
        }),
{
    assert((seq![entry] + entries).drop_first() =~= entries);
}

/// An FDE is put after those that start no later, and before those that start later: the
/// order of the section decides between FDEs with the same start.
pub proof fn law_later_fde_comes_after_equal_ones(fdes: Seq<Fde>, fde: Fde)
    ensures
        exists|at: int|
            {
                &&& 0 <= at <= sorted_fdes(fdes).len()
                &&& sorted_fdes(fdes.push(fde)) == #[trigger] sorted_fdes(fdes).insert(at, fde)
                &&& forall|i: int|
                    0 <= i < at ==> (#[trigger] sorted_fdes(fdes)[i]).start <= fde.start
                &&& forall|i: int|
                    at <= i < sorted_fdes(fdes).len() ==> fde.start < (#[trigger] sorted_fdes(
                        fdes,
                    )[i]).start
            },
{
    let rest = sorted_fdes(fdes);
    let at = starts_up_to(rest, fde.start);
    law_index_is_sorted(fdes);
    lemma_split(rest, fde.start);
    assert(fdes.push(fde).drop_last() =~= fdes);
    assert(sorted_fdes(fdes.push(fde)) == rest.insert(at, fde));
}

/// Sorted FDEs are split at an address.
proof fn lemma_split(fdes: Seq<Fde>, pc: u64)
    requires
        forall|i: int, j: int| 0 <= i <= j < fdes.len() ==> fdes[i].start <= fdes[j].start,
    ensures
        0 <= starts_up_to(fdes, pc) <= fdes.len(),
        forall|i: int| 0 <= i < starts_up_to(fdes, pc) ==> (#[trigger] fdes[i]).start <= pc,
        forall|i: int| starts_up_to(fdes, pc) <= i < fdes.len() ==> pc < (#[trigger] fdes[i]).start,
    decreases fdes.len(),
{
    if fdes.len() > 0 && fdes.last().start > pc {
        let rest = fdes.drop_last();
        assert forall|i: int, j: int| 0 <= i <= j < rest.len() implies rest[i].start
            <= rest[j].start by {
            assert(fdes[i].start <= fdes[j].start);
        }
        lemma_split(rest, pc);
        assert forall|i: int| 0 <= i < starts_up_to(fdes, pc) implies (#[trigger] fdes[i]).start
            <= pc by {
            assert(rest[i] == fdes[i]);
        }
        assert forall|i: int| starts_up_to(fdes, pc) <= i < fdes.len() implies pc < (
        #[trigger] fdes[i]).start by {
            if i < rest.len() {
                assert(rest[i] == fdes[i]);
            }
        }
    } else if fdes.len() > 0 {
        assert forall|i: int| 0 <= i < fdes.len() implies (#[trigger] fdes[i]).start <= pc by {
            assert(fdes[i].start <= fdes[fdes.len() - 1].start);
        }
    }
}

/// Whether a row applies to an address.
pub open spec fn applies_to(row: TableRow, pc: u64) -> bool {
    row.head.start <= pc && pc < row.head.end
}

/// The offset of the CFA of a row from the stack pointer, if that is how it is given.
pub open spec fn sp_offset(row: TableRow) -> Option<i64> {
    match row.head.cfa {
        Cfa::RegisterAndOffset { register, offset } => if register == 2 {
            Some(offset)
        } else {
            None
        },
        Cfa::Expression => None,
    }
}

/// The unwind rules in effect at an address are those of the first row that applies to it,
/// together with the addresses of the function, whether any row of it has a rule for `ra`,
/// and the offset of the last stack pointer based CFA up to that row. There are none if no
/// row applies.
pub proof fn law_rules_are_those_of_first_row(
    rows: Seq<TableRow>,
    fde: Fde,
    pc: u64,
    k: int,
    m: int,
)
    requires
        0 <= k <= rows.len(),
        forall|i: int| 0 <= i < k ==> !applies_to(#[trigger] rows[i], pc),
        k < rows.len() ==> applies_to(rows[k], pc),
        -1 <= m <= k,
        k < rows.len() ==> (forall|i: int| m < i <= k ==> sp_offset(#[trigger] rows[i]) is None),
        k < rows.len() && m >= 0 ==> sp_offset(rows[m]) is Some,
    ensures
        k == rows.len() ==> row_at(rows, fde, pc) is None,
        k < rows.len() ==> (row_at(rows, fde, pc) matches Some(row) && {
            &&& row.cfa == rows[k].head.cfa
            &&& row.rules == rows[k].rules
            &&& row.function_start == wrap(fde.start as int)
            &&& row.function_end == wrap(fde.end as int)
            &&& row.function_saves_ra <==> exists|i: int|
                0 <= i < rows.len() && (#[trigger] rows[i]).rules.dom().contains(1)
            &&& row.sp_cfa_offset == (if m >= 0 {
                sp_offset(rows[m])
            } else {
                None
            })
        }),
{
    lemma_row_index(rows, pc, k);
    if k < rows.len() {
        let upto = rows.take(k + 1);
        assert forall|i: int| m < i < upto.len() implies sp_offset(#[trigger] upto[i]) is None by {
            assert(upto[i] == rows[i]);
        }
        assert(m >= 0 ==> upto[m] == rows[m]);
        lemma_last_sp_offset(upto, m);
    }
}

/// The first row that applies to an address is found.
proof fn lemma_row_index(rows: Seq<TableRow>, pc: u64, k: int)
    requires
        0 <= k <= rows.len(),
        forall|i: int| 0 <= i < k ==> !applies_to(#[trigger] rows[i], pc),
        k < rows.len() ==> applies_to(rows[k], pc),
    ensures
        row_index(rows, pc) == if k < rows.len() {
            Some(k)
        } else {
            None
        },
    decreases rows.len(),
{
    if rows.len() > 0 {
        let rest = rows.drop_last();
        assert forall|i: int| 0 <= i < k && i < rest.len() implies !applies_to(
            #[trigger] rest[i],
            pc,
        ) by {
            assert(rest[i] == rows[i]);
        }
        if k < rest.len() {
            assert(rest[k] == rows[k]);
            lemma_row_index(rest, pc, k);
        } else {
            lemma_row_index(rest, pc, rest.len() as int);
            assert(k == rows.len() ==> !applies_to(rows[rows.len() - 1], pc));
        }
    }
}

/// The last stack pointer based CFA is found.
proof fn lemma_last_sp_offset(rows: Seq<TableRow>, m: int)
    requires
        -1 <= m < rows.len(),
        forall|i: int| m < i < rows.len() ==> sp_offset(#[trigger] rows[i]) is None,
        m >= 0 ==> sp_offset(rows[m]) is Some,
    ensures
        last_sp_offset(rows) == if m >= 0 {
            sp_offset(rows[m])
        } else {
            None
        },
    decreases rows.len(),
{
    if rows.len() > 0 && m < rows.len() - 1 {
        let rest = rows.drop_last();
        assert(sp_offset(rows[rows.len() - 1]) is None);
        assert forall|i: int| m < i < rest.len() implies sp_offset(#[trigger] rest[i]) is None by {
            assert(rest[i] == rows[i]);
        }
        assert(m >= 0 ==> rest[m] == rows[m]);
        lemma_last_sp_offset(rest, m);
    }
}

/// The unwind rules of a section at an address are those of the FDE that covers it and
/// starts last, among those that were indexed; there are none if no FDE covers it.
pub proof fn law_rules_are_those_of_covering_fde(section: CfiContents, pc: u64)
    ensures
        ({
            let fdes = usable_fdes(section.entries());
            &&& (forall|fde: Fde| #[trigger] fdes.contains(fde) ==> !(fde.start <= pc < fde.end))
                ==> section.row(pc) is None
            &&& (exists|fde: Fde| #[trigger] fdes.contains(fde) && fde.start <= pc < fde.end)
                ==> exists|fde: Fde|
                {
                    &&& #[trigger] fdes.contains(fde)
                    &&& fde.start <= pc < fde.end
                    &&& forall|other: Fde| #[trigger]
                        fdes.contains(other) && other.start <= pc < other.end ==> other.start
                            <= fde.start
                    &&& section.row(pc) == (match section.rows(fde.offset) {
                        Some(rows) => row_at(rows, fde, pc),
                        None => None,
                    })
                }
        }),
{
    let fdes = usable_fdes(section.entries());
    let sorted = sorted_fdes(fdes);
    law_index_is_sorted(fdes);
    law_found_fde_covers_pc(sorted, pc);
    assert forall|fde: Fde| fdes.contains(fde) == sorted.contains(fde) by {
        lemma_same_fdes(fdes, fde);
    }
    assert forall|other: Fde| #[trigger]
        fdes.contains(other) && other.start <= pc < other.end implies covering_fde(
        sorted,
        pc,
    ) is Some && other.start <= covering_fde(sorted, pc)->0.start by {
        let k = choose|k: int| 0 <= k < sorted.len() && sorted[k] == other;
        assert(covers(sorted[k], pc));
        law_covering_fde_is_found(sorted, pc, k);
    }
    if let Some(fde) = covering_fde(sorted, pc) {
        assert(fdes.contains(fde));
    }
}

/// Sorting keeps the FDEs.
proof fn lemma_same_fdes(fdes: Seq<Fde>, fde: Fde)
    ensures
        fdes.contains(fde) == sorted_fdes(fdes).contains(fde),
{
    law_index_keeps_fdes(fdes);
    fdes.to_multiset_ensures();
    sorted_fdes(fdes).to_multiset_ensures();
    assert(fdes.to_multiset().count(fde) > 0 <==> fdes.contains(fde));
    assert(sorted_fdes(fdes).to_multiset().count(fde) > 0 <==> sorted_fdes(fdes).contains(fde));
}

/// The code of an ELF file is that of its executable sections which aren't empty, in the
/// order of the file.
pub proof fn law_code_is_that_of_text_sections(
    sections: Seq<SectionContents>,
    section: SectionContents,
)
    ensures
        text_sections(Seq::<SectionContents>::empty()).len() == 0,
        text_sections(sections.push(section)) == (match section.data {
            Some(bytes) => if section.kind == SectionKind::Text && bytes.len() > 0 {
                text_sections(sections).push(CodeContents { start: section.address, bytes })
            } else {
                text_sections(sections)
            },
            None => text_sections(sections),
        }),
{
    assert(sections.push(section).drop_last() =~= sections);
}

/// The unwind sections of an ELF file are its `.debug_frame` and its `.eh_frame`, as far as
/// they are selected and aren't empty, in this order. They are read with the byte order and
/// the address size of the file, which is four bytes if it isn't known, and the latter with
/// its own address and those of `.text` and `.got`.
pub proof fn law_unwind_sections_are_selected(
    elf: Seq<u8>,
    tables: UnwindTables,
    header: Header,
    section: CfiContents,
)
    requires
        object_header(elf) == Some(header),
    ensures
        ({
            let debug_frame = object_section(elf, ".debug_frame"@);
            let eh_frame = object_section(elf, ".eh_frame"@);
            let has_debug = tables !is EhFrame && (debug_frame matches Some(section) && (
            section.data matches Some(data) && data.len() > 0));
            let has_eh = tables !is DebugFrame && (eh_frame matches Some(section) && (
            section.data matches Some(data) && data.len() > 0));
            let size = match header.address_size {
                Some(size) => size,
                None => 4,
            };
            let list = elf_tables(elf, tables);
            &&& list.len() == (if has_debug {
                1int
            } else {
                0int
            }) + (if has_eh {
                1int
            } else {
                0int
            })
            &&& forall|i: int|
                0 <= i < list.len() ==> (#[trigger] list[i]).little_endian == header.little_endian
                    && list[i].address_size == size
            &&& has_debug ==> list[0].eh_bases is None && Some(list[0].data) == debug_frame->0.data
            &&& has_eh ==> {
                let last = list[list.len() - 1];
                &&& Some(last.data) == eh_frame->0.data
                &&& last.eh_bases matches Some(bases)
                &&& bases.eh_frame == eh_frame->0.address
                &&& bases.text == (match object_section(elf, ".text"@) {
                    Some(text) => Some(text.address),
                    None => None,
                })
                &&& bases.got == (match object_section(elf, ".got"@) {
                    Some(got) => Some(got.address),
                    None => None,
                })
            }
        }),
        elf_code(elf) == text_sections(object_sections(elf)),
{
}

/// The unwind rules at an address are those of the first section that has any.
pub proof fn law_first_section_with_rules_counts(
    elfs: Seq<Seq<u8>>,
    tables: UnwindTables,
    pc: u64,
    k: int,
)
    requires
        0 <= k <= all_tables(elfs, tables).len(),
        forall|i: int| 0 <= i < k ==> (#[trigger] all_tables(elfs, tables)[i]).row(pc) is None,
        k < all_tables(elfs, tables).len() ==> all_tables(elfs, tables)[k].row(pc) is Some,
    ensures
        (unwind_data(elfs, tables).rows)(pc) == if k < all_tables(elfs, tables).len() {
            all_tables(elfs, tables)[k].row(pc)
        } else {
            None
        },
{
    lemma_section_rules(all_tables(elfs, tables), pc, k);
}

/// The first section that has rules is found.
proof fn lemma_section_rules(sections: Seq<CfiContents>, pc: u64, k: int)
    requires
        0 <= k <= sections.len(),
        forall|i: int| 0 <= i < k ==> (#[trigger] sections[i]).row(pc) is None,
        k < sections.len() ==> sections[k].row(pc) is Some,
    ensures
        section_rules(sections, pc) == if k < sections.len() {
            sections[k].row(pc)
        } else {
            None
        },
    decreases k,
{
    if k > 0 {
        let rest = sections.drop_first();
        assert(sections[0].row(pc) is None);
        assert forall|i: int| 0 <= i < k - 1 implies (#[trigger] rest[i]).row(pc) is None by {
            assert(rest[i] == sections[i + 1]);
        }
        lemma_section_rules(rest, pc, k - 1);
    }
}

/// The unwind sections and the code of ELF files are those of each file, in the order of the
/// files.
pub proof fn law_files_are_listed_in_order(
    elfs: Seq<Seq<u8>>,
    elf: Seq<u8>,
    tables: UnwindTables,
)
    ensures
        all_tables(Seq::<Seq<u8>>::empty(), tables).len() == 0,
        all_tables(elfs.push(elf), tables) == all_tables(elfs, tables) + elf_tables(elf, tables),
        unwind_data(Seq::<Seq<u8>>::empty(), tables).code.len() == 0,
        unwind_data(elfs.push(elf), tables).code == unwind_data(elfs, tables).code + elf_code(elf),
{
    assert(elfs.push(elf).drop_last() =~= elfs);
}

} // verus!
