//! Unwind sections indexed by address.
use crate::cfi_section::{
    debug_frame_entries, debug_frame_rows, eh_frame_entries, eh_frame_rows, lists_rules,
    read_debug_frame_entries, read_debug_frame_rows, read_eh_frame_entries, read_eh_frame_rows,
    read_head, read_rules, table_rows, Cfa, EhBases, Entry, Fde, RowHead, Rule, TableRow,
};
use crate::registers::{REG_RA, REG_SP};
use crate::riscv::wrap;
use vstd::prelude::*;

verus! {

/// What a [`CfiSection`] holds.
#[verifier::ext_equal]
pub struct CfiContents {
    /// The contents of the section.
    pub data: Seq<u8>,
    /// Whether multi-byte values are stored least significant byte first.
    pub little_endian: bool,
    /// The size of an address in bytes.
    pub address_size: u8,
    /// The base addresses of an `.eh_frame` section; `None` for a
    /// `.debug_frame` section.
    pub eh_bases: Option<EhBases>,
}

/// An unwind section.
#[derive(Clone, Copy, Debug, PartialEq, Eq)]
pub struct CfiSection<'a> {
    /// The contents of the section.
    pub data: &'a [u8],
    /// Whether multi-byte values are stored least significant byte first.
    pub little_endian: bool,
    /// The size of an address in bytes.
    pub address_size: u8,
    /// The base addresses of an `.eh_frame` section; `None` for a
    /// `.debug_frame` section.
    pub eh_bases: Option<EhBases>,
}

impl<'a> View for CfiSection<'a> {
    type V = CfiContents;

    open spec fn view(&self) -> CfiContents {
        CfiContents {
            data: self.data@,
            little_endian: self.little_endian,
            address_size: self.address_size,
            eh_bases: self.eh_bases,
        }
    }
}

impl CfiContents {
    /// Whether addresses have a size that exists.
    pub open spec fn wf(self) -> bool {
        self.address_size == 1 || self.address_size == 2 || self.address_size == 4
            || self.address_size == 8
    }

    /// The entries of the section.
    pub open spec fn entries(self) -> Seq<Entry> {
        match self.eh_bases {
            None => debug_frame_entries(self.data, self.little_endian, self.address_size),
            Some(bases) => eh_frame_entries(
                self.data,
                self.little_endian,
                self.address_size,
                bases,
            ),
        }
    }

    /// The rows of the unwind table of the FDE at the given offset.
    pub open spec fn rows(self, fde: usize) -> Option<Seq<TableRow>> {
        match self.eh_bases {
            None => debug_frame_rows(self.data, self.little_endian, self.address_size, fde),
            Some(bases) => eh_frame_rows(
                self.data,
                self.little_endian,
                self.address_size,
                bases,
                fde,
            ),
        }
    }

    /// The unwind rules in effect at `pc`, if the section covers it.
    pub open spec fn row(self, pc: u64) -> Option<RowRules> {
        match covering_fde(sorted_fdes(usable_fdes(self.entries())), pc) {
            None => None,
            Some(fde) => match self.rows(fde.offset) {
                None => None,
                Some(rows) => row_at(rows, fde, pc),
            },
        }
    }
}

/// The FDEs that are worth indexing: those that can be parsed and aren't empty,
/// up to the first malformed entry.
pub open spec fn usable_fdes(entries: Seq<Entry>) -> Seq<Fde>
    decreases entries.len(),
{
    if entries.len() == 0 {
        seq![]
    } else {
        match entries[0] {
            Entry::Malformed => seq![],
            Entry::Fde(fde) if fde.len > 0 => seq![fde] + usable_fdes(entries.drop_first()),
            _ => usable_fdes(entries.drop_first()),
        }
    }
}

/// How many of the FDEs, which are sorted by their start, start at or before
/// `pc`.
pub open spec fn starts_up_to(fdes: Seq<Fde>, pc: u64) -> int
    decreases fdes.len(),
{
    if fdes.len() == 0 {
        0
    } else if fdes.last().start <= pc {
        fdes.len() as int
    } else {
        starts_up_to(fdes.drop_last(), pc)
    }
}

/// The FDEs sorted by their start; FDEs with the same start keep their order.
pub open spec fn sorted_fdes(fdes: Seq<Fde>) -> Seq<Fde>
    decreases fdes.len(),
{
    if fdes.len() == 0 {
        seq![]
    } else {
        let rest = sorted_fdes(fdes.drop_last());
        rest.insert(starts_up_to(rest, fdes.last().start), fdes.last())
    }
}

/// Whether the FDEs are sorted by their start.
pub open spec fn is_sorted(fdes: Seq<Fde>) -> bool {
    forall|i: int, j: int| 0 <= i <= j < fdes.len() ==> fdes[i].start <= fdes[j].start
}

/// Whether the FDE covers `pc`.
pub open spec fn covers(fde: Fde, pc: u64) -> bool {
    fde.start <= pc < fde.end
}

/// The last of the FDEs before `end` which covers `pc`.
pub open spec fn last_covering(fdes: Seq<Fde>, pc: u64, end: int) -> Option<Fde>
    decreases end,
{
    if end <= 0 {
        None
    } else if covers(fdes[end - 1], pc) {
        Some(fdes[end - 1])
    } else {
        last_covering(fdes, pc, end - 1)
    }
}

/// The FDE that covers `pc`. FDEs normally don't overlap, so that is the last
/// one starting at or before it; its predecessors are considered too, in case
/// some FDE is nested in a larger one. Of several, it is the one starting last.
pub open spec fn covering_fde(fdes: Seq<Fde>, pc: u64) -> Option<Fde> {
    last_covering(fdes, pc, fdes.len() as int)
}

/// The index of the first row that applies to `pc`.
pub open spec fn row_index(rows: Seq<TableRow>, pc: u64) -> Option<int>
    decreases rows.len(),
{
    if rows.len() == 0 {
        None
    } else {
        match row_index(rows.drop_last(), pc) {
            Some(index) => Some(index),
            None => if rows.last().head.start <= pc < rows.last().head.end {
                Some(rows.len() - 1)
            } else {
                None
            },
        }
    }
}

/// The offset of the last CFA rule among the rows that is based on the stack
/// pointer.
pub open spec fn last_sp_offset(rows: Seq<TableRow>) -> Option<i64>
    decreases rows.len(),
{
    if rows.len() == 0 {
        None
    } else {
        match rows.last().head.cfa {
            Cfa::RegisterAndOffset { register, offset } if register == REG_SP => Some(offset),
            _ => last_sp_offset(rows.drop_last()),
        }
    }
}

/// Whether any of the rows has a rule for the return address register.
pub open spec fn any_saves_ra(rows: Seq<TableRow>) -> bool {
    exists|i: int| 0 <= i < rows.len() && (#[trigger] rows[i]).rules.dom().contains(REG_RA)
}

/// The unwind rules in effect at `pc`, given the rows of the unwind table of
/// the FDE that covers it.
pub open spec fn row_at(rows: Seq<TableRow>, fde: Fde, pc: u64) -> Option<RowRules> {
    match row_index(rows, pc) {
        None => None,
        Some(index) => Some(
            RowRules {
                function_start: wrap(fde.start as int),
                function_end: wrap(fde.end as int),
                function_saves_ra: any_saves_ra(rows),
                cfa: rows[index].head.cfa,
                rules: rows[index].rules,
                sp_cfa_offset: last_sp_offset(rows.take(index + 1)),
            },
        ),
    }
}

/// The rules in a list, by register.
pub open spec fn rules_by_register(list: Seq<(u16, Rule)>) -> Map<u16, Rule>
    decreases list.len(),
{
    if list.len() == 0 {
        Map::empty()
    } else {
        rules_by_register(list.drop_last()).insert(list.last().0, list.last().1)
    }
}

/// Whether no register has two rules in the list.
pub open spec fn one_rule_each(list: Seq<(u16, Rule)>) -> bool {
    forall|i: int, j: int| 0 <= i < j < list.len() ==> list[i].0 != list[j].0
}

/// A list without two rules for one register holds the rules of its map.
pub proof fn lemma_rules_by_register(list: Seq<(u16, Rule)>)
    requires
        one_rule_each(list),
    ensures
        lists_rules(list, rules_by_register(list)),
    decreases list.len(),
{
    if list.len() > 0 {
        let rest = list.drop_last();
        let rules = rules_by_register(list);
        lemma_rules_by_register(rest);
        assert forall|i: int| #![trigger list[i]] 0 <= i < list.len() implies rules.dom().contains(
            list[i].0,
        ) && rules[list[i].0] == list[i].1 by {
            if i < list.len() - 1 {
                assert(rest[i] == list[i]);
            }
        }
        assert forall|reg: u16| rules.dom().contains(reg) implies exists|i: int|
            0 <= i < list.len() && (#[trigger] list[i]).0 == reg by {
            if reg == list.last().0 {
                assert(list[list.len() - 1].0 == reg);
            } else {
                let i = choose|i: int| 0 <= i < rest.len() && (#[trigger] rest[i]).0 == reg;
                assert(list[i].0 == reg);
            }
        }
    }
}

/// A list of the rules of a map determines the map.
proof fn lemma_lists_rules(list: Seq<(u16, Rule)>, rules: Map<u16, Rule>)
    requires
        lists_rules(list, rules),
    ensures
        one_rule_each(list),
        rules_by_register(list) == rules,
{
    let other = rules_by_register(list);
    lemma_rules_by_register(list);
    assert forall|reg: u16| rules.dom().contains(reg) == other.dom().contains(reg) by {
        if rules.dom().contains(reg) {
            let i = choose|i: int| 0 <= i < list.len() && (#[trigger] list[i]).0 == reg;
            assert(other.dom().contains(list[i].0));
        }
        if other.dom().contains(reg) {
            let i = choose|i: int| 0 <= i < list.len() && (#[trigger] list[i]).0 == reg;
            assert(rules.dom().contains(list[i].0));
        }
    }
    assert forall|reg: u16| rules.dom().contains(reg) implies rules[reg] == other[reg] by {
        let i = choose|i: int| 0 <= i < list.len() && (#[trigger] list[i]).0 == reg;
        assert(rules[list[i].0] == other[list[i].0]);
    }
    assert(other =~= rules);
}

/// A row of an unwind table.
#[derive(Debug, PartialEq, Eq)]
pub struct UnwindRow {
    /// The addresses the row applies to, and its CFA rule.
    pub head: RowHead,
    /// The rules of the registers that have one.
    pub rules: Vec<(u16, Rule)>,
}

impl View for UnwindRow {
    type V = TableRow;

    open spec fn view(&self) -> TableRow {
        TableRow { head: self.head, rules: rules_by_register(self.rules@) }
    }
}

/// The rows as their views.
pub open spec fn row_views(rows: Seq<UnwindRow>) -> Seq<TableRow> {
    rows.map_values(|row: UnwindRow| row@)
}

/// What a [`Row`] holds.
#[verifier::ext_equal]
pub struct RowRules {
    /// The first address of the function the rules belong to.
    pub function_start: u32,
    /// One more than the last address of that function.
    pub function_end: u32,
    /// Whether the function saves `ra` anywhere.
    pub function_saves_ra: bool,
    /// How to compute the CFA.
    pub cfa: Cfa,
    /// The rules of the registers that have one.
    pub rules: Map<u16, Rule>,
    /// The offset of the last stack pointer based CFA rule.
    pub sp_cfa_offset: Option<i64>,
}

/// The unwind rules in effect at some address.
#[derive(Clone, Debug, PartialEq, Eq)]
pub struct Row {
    /// The first address of the function the rules belong to.
    pub function_start: u32,
    /// One more than the last address of that function.
    pub function_end: u32,
    /// Whether the function saves `ra` anywhere. Functions which never return
    /// may skip that altogether.
    pub function_saves_ra: bool,
    /// How to compute the CFA.
    pub cfa: Cfa,
    /// The rules of the registers that have one.
    pub registers: Vec<(u16, Rule)>,
    /// The offset of the last stack pointer based CFA rule of the function
    /// before (or at) the address. Functions using a frame pointer switch
    /// their CFA rule to it once it is set up; when its value isn't known,
    /// this is the next best thing.
    pub sp_cfa_offset: Option<i64>,
}

impl View for Row {
    type V = RowRules;

    open spec fn view(&self) -> RowRules {
        RowRules {
            function_start: self.function_start,
            function_end: self.function_end,
            function_saves_ra: self.function_saves_ra,
            cfa: self.cfa,
            rules: rules_by_register(self.registers@),
            sp_cfa_offset: self.sp_cfa_offset,
        }
    }
}

impl Row {
    /// Whether no register has two rules.
    pub open spec fn wf(self) -> bool {
        one_rule_each(self.registers@)
    }

    /// Picks the unwind rules in effect at `pc` from the rows of the unwind
    /// table of the FDE that covers it.
    #[verifier::rlimit(40)]
    pub fn at(rows: &Vec<UnwindRow>, fde: Fde, pc: u64) -> (row: Option<Row>)
        requires
            forall|i: int| 0 <= i < rows@.len() ==> one_rule_each((#[trigger] rows@[i]).rules@),
        ensures
            row matches Some(r) ==> r.wf() && row_at(row_views(rows@), fde, pc) == Some(r@),
            row is None ==> row_at(row_views(rows@), fde, pc) is None,
    {
        let ghost views = row_views(rows@);
        let mut saves_ra: bool = false;
        let mut found: Option<usize> = None;
        let mut sp_cfa_offset: Option<i64> = None;
        let mut i: usize = 0;
        assert(views.take(0) =~= seq![]);
        while i < rows.len()
            invariant
                0 <= i <= rows@.len(),
                views == row_views(rows@),
                forall|j: int| 0 <= j < rows@.len() ==> one_rule_each((#[trigger] rows@[j]).rules@),
                saves_ra == any_saves_ra(views.take(i as int)),
                match found {
                    None => {
                        &&& row_index(views.take(i as int), pc) is None
                        &&& sp_cfa_offset == last_sp_offset(views.take(i as int))
                    },
                    Some(index) => {
                        &&& index < i
                        &&& row_index(views.take(i as int), pc) == Some(index as int)
                        &&& sp_cfa_offset == last_sp_offset(views.take(index + 1))
                    },
                },
            decreases rows@.len() - i,
        {
            let row = &rows[i];
            assert(views.take(i + 1).drop_last() =~= views.take(i as int));
            assert(views.take(i + 1).last() == row@);
            let has_ra = has_rule(&row.rules, REG_RA);
            proof {
                if has_ra {
                    assert(views.take(i + 1)[i as int].rules.dom().contains(REG_RA));
                }
                if saves_ra {
                    let k = choose|k: int|
                        0 <= k < i && (#[trigger] views.take(i as int)[k]).rules.dom().contains(
                            REG_RA,
                        );
                    assert(views.take(i + 1)[k] == views.take(i as int)[k]);
                }
                if any_saves_ra(views.take(i + 1)) {
                    let k = choose|k: int|
                        0 <= k < i + 1 && (#[trigger] views.take(i + 1)[k]).rules.dom().contains(
                            REG_RA,
                        );
                    if k < i {
                        assert(views.take(i + 1)[k] == views.take(i as int)[k]);
                    }
                }
            }
            if has_ra {
                saves_ra = true;
            }
            if found.is_none() {
                if let Cfa::RegisterAndOffset { register, offset } = row.head.cfa {
                    if register == REG_SP {
                        sp_cfa_offset = Some(offset);
                    }
                }
                if row.head.start <= pc && pc < row.head.end {
                    found = Some(i);
                }
            }
            i += 1;
        }
        assert(views.take(rows@.len() as int) =~= views);
        let Some(index) = found else {
            return None;
        };
        proof {
            assert(views[index as int] == rows@[index as int]@);
        }
        Some(
            Row {
                function_start: truncate(fde.start),
                function_end: truncate(fde.end),
                function_saves_ra: saves_ra,
                cfa: rows[index].head.cfa,
                registers: copy_rules(&rows[index].rules),
                sp_cfa_offset,
            },
        )
    }

    /// Returns the rule for register `reg`, if it has one.
    pub fn rule(&self, reg: u16) -> (rule: Option<Rule>)
        requires
            self.wf(),
        ensures
            rule == (if self@.rules.dom().contains(reg) {
                Some(self@.rules[reg])
            } else {
                None::<Rule>
            }),
    {
        proof {
            lemma_rules_by_register(self.registers@);
        }
        let mut i: usize = 0;
        while i < self.registers.len()
            invariant
                0 <= i <= self.registers@.len(),
                lists_rules(self.registers@, self@.rules),
                forall|j: int| 0 <= j < i ==> (#[trigger] self.registers@[j]).0 != reg,
            decreases self.registers@.len() - i,
        {
            if self.registers[i].0 == reg {
                return Some(self.registers[i].1);
            }
            i += 1;
        }
        None
    }
}

/// The low 32 bits of an address.
fn truncate(address: u64) -> (low: u32)
    ensures
        low == wrap(address as int),
{
    assert(address as u32 == address % 0x1_0000_0000) by (bit_vector);
    address as u32
}

/// Whether the list has a rule for register `reg`.
fn has_rule(list: &Vec<(u16, Rule)>, reg: u16) -> (has: bool)
    requires
        one_rule_each(list@),
    ensures
        has == rules_by_register(list@).dom().contains(reg),
{
    proof {
        lemma_rules_by_register(list@);
    }
    let mut i: usize = 0;
    while i < list.len()
        invariant
            0 <= i <= list@.len(),
            lists_rules(list@, rules_by_register(list@)),
            forall|j: int| 0 <= j < i ==> (#[trigger] list@[j]).0 != reg,
        decreases list@.len() - i,
    {
        if list[i].0 == reg {
            return true;
        }
        i += 1;
    }
    false
}

/// Copies a list of rules.
fn copy_rules(list: &Vec<(u16, Rule)>) -> (copy: Vec<(u16, Rule)>)
    ensures
        copy@ == list@,
{
    let mut copy: Vec<(u16, Rule)> = Vec::new();
    let mut i: usize = 0;
    while i < list.len()
        invariant
            0 <= i <= list@.len(),
            copy@ == list@.take(i as int),
        decreases list@.len() - i,
    {
        copy.push(list[i]);
        i += 1;
    }
    copy
}

impl<'a> CfiSection<'a> {
    /// Lists the entries of the section.
    fn entries(&self) -> (entries: Vec<Entry>)
        requires
            self@.wf(),
        ensures
            entries@ == self@.entries(),
    {
        match self.eh_bases {
            None => read_debug_frame_entries(self.data, self.little_endian, self.address_size),
            Some(bases) => read_eh_frame_entries(
                self.data,
                self.little_endian,
                self.address_size,
                bases,
            ),
        }
    }

    /// Lists the rows of the unwind table of the FDE at the given offset.
    fn rows(&self, fde: usize) -> (rows: Option<Vec<UnwindRow>>)
        requires
            self@.wf(),
        ensures
            rows matches Some(r) ==> {
                &&& self@.rows(fde) == Some(row_views(r@))
                &&& forall|i: int| 0 <= i < r@.len() ==> one_rule_each((#[trigger] r@[i]).rules@)
            },
            rows is None ==> self@.rows(fde) is None,
    {
        let table = match self.eh_bases {
            None => read_debug_frame_rows(self.data, self.little_endian, self.address_size, fde),
            Some(bases) => read_eh_frame_rows(
                self.data,
                self.little_endian,
                self.address_size,
                bases,
                fde,
            ),
        };
        let Some(table) = table else {
            return None;
        };
        let ghost views = table_rows(table@);
        let mut rows: Vec<UnwindRow> = Vec::new();
        let mut i: usize = 0;
        while i < table.len()
            invariant
                0 <= i <= table@.len(),
                views == table_rows(table@),
                row_views(rows@) == views.take(i as int),
                forall|j: int| 0 <= j < rows@.len() ==> one_rule_each((#[trigger] rows@[j]).rules@),
            decreases table@.len() - i,
        {
            let row = UnwindRow { head: read_head(&table[i]), rules: read_rules(&table[i]) };
            proof {
                lemma_lists_rules(row.rules@, views[i as int].rules);
                assert(row@ == views[i as int]);
                assert(row_views(rows@.push(row)) =~= row_views(rows@).push(row@));
                assert(views.take(i + 1) =~= views.take(i as int).push(views[i as int]));
            }
            rows.push(row);
            i += 1;
        }
        assert(views.take(views.len() as int) =~= views);
        Some(rows)
    }
}

/// An insertion at the end of the FDEs that start no later keeps them sorted,
/// and the number of FDEs up to an address is where they split.
proof fn lemma_starts_up_to(fdes: Seq<Fde>, pc: u64)
    requires
        is_sorted(fdes),
    ensures
        0 <= starts_up_to(fdes, pc) <= fdes.len(),
        forall|i: int| 0 <= i < starts_up_to(fdes, pc) ==> (#[trigger] fdes[i]).start <= pc,
        forall|i: int| starts_up_to(fdes, pc) <= i < fdes.len() ==> pc < (#[trigger] fdes[i]).start,
    decreases fdes.len(),
{
    if fdes.len() > 0 && fdes.last().start > pc {
        let rest = fdes.drop_last();
        assert(is_sorted(rest)) by {
            assert forall|i: int, j: int| 0 <= i <= j < rest.len() implies rest[i].start
                <= rest[j].start by {
                assert(fdes[i].start <= fdes[j].start);
            }
        }
        lemma_starts_up_to(rest, pc);
        assert forall|i: int| 0 <= i < starts_up_to(fdes, pc) implies (#[trigger] fdes[i]).start
            <= pc by {
            assert(rest[i] == fdes[i]);
        }
        assert forall|i: int| starts_up_to(fdes, pc) <= i < fdes.len() implies pc < (
        #[trigger] fdes[i]).start by {
            if i < rest.len() {
                assert(rest[i] == fdes[i]);
            }
        }
    } else if fdes.len() > 0 {
        assert forall|i: int| 0 <= i < fdes.len() implies (#[trigger] fdes[i]).start <= pc by {
            assert(fdes[i].start <= fdes[fdes.len() - 1].start);
        }
    }
}

/// The index of an unwind section is sorted by start address.
pub proof fn law_index_is_sorted(fdes: Seq<Fde>)
    ensures
        is_sorted(sorted_fdes(fdes)),
    decreases fdes.len(),
{
    if fdes.len() > 0 {
        let rest = sorted_fdes(fdes.drop_last());
        let fde = fdes.last();
        law_index_is_sorted(fdes.drop_last());
        lemma_starts_up_to(rest, fde.start);
        let at = starts_up_to(rest, fde.start);
        let all = rest.insert(at, fde);
        assert forall|i: int, j: int| 0 <= i <= j < all.len() implies all[i].start
            <= all[j].start by {
            let before = |k: int| if k < at { k } else { k - 1 };
            if i != at && j != at {
                assert(all[i] == rest[before(i)] && all[j] == rest[before(j)]);
            } else if i == at && j != at {
                assert(all[j] == rest[before(j)]);
            } else if j == at && i != at {
                assert(all[i] == rest[before(i)]);
            }
        }
    }
}

/// Indexing an unwind section neither drops nor repeats an FDE.
pub proof fn law_index_keeps_fdes(fdes: Seq<Fde>)
    ensures
        sorted_fdes(fdes).to_multiset() == fdes.to_multiset(),
    decreases fdes.len(),
{
    broadcast use vstd::seq_lib::group_to_multiset_ensures;

    if fdes.len() > 0 {
        let rest = fdes.drop_last();
        law_index_keeps_fdes(rest);
        law_index_is_sorted(rest);
        lemma_starts_up_to(sorted_fdes(rest), fdes.last().start);
        assert(fdes =~= rest.push(fdes.last()));
        vstd::seq_lib::to_multiset_insert(
            sorted_fdes(rest),
            starts_up_to(sorted_fdes(rest), fdes.last().start),
            fdes.last(),
        );
    } else {
        assert(sorted_fdes(fdes) =~= fdes);
    }
}

/// Finds how many of the sorted FDEs start at or before `pc`.
fn partition_point(fdes: &Vec<Fde>, pc: u64) -> (count: usize)
    requires
        is_sorted(fdes@),
    ensures
        count == starts_up_to(fdes@, pc),
{
    let mut low: usize = 0;
    let mut high: usize = fdes.len();
    while low < high
        invariant
            0 <= low <= high <= fdes@.len(),
            is_sorted(fdes@),
            forall|i: int| 0 <= i < low ==> (#[trigger] fdes@[i]).start <= pc,
            forall|i: int| high <= i < fdes@.len() ==> pc < (#[trigger] fdes@[i]).start,
        decreases high - low,
    {
        let middle: usize = low + (high - low) / 2;
        if fdes[middle].start <= pc {
            low = middle + 1;
        } else {
            high = middle;
        }
    }
    proof {
        lemma_starts_up_to(fdes@, pc);
        let count = starts_up_to(fdes@, pc);
        if count < low {
            assert(fdes@[count].start <= pc);
        } else if count > low {
            assert(pc < fdes@[low as int].start);
        }
    }
    low
}

/// Lists the FDEs of an unwind section that are worth indexing, sorted by
/// start address.
pub fn index_fdes(entries: &Vec<Entry>) -> (fdes: Vec<Fde>)
    ensures
        fdes@ == sorted_fdes(usable_fdes(entries@)),
{
    let mut fdes: Vec<Fde> = Vec::new();
    let ghost mut used: Seq<Fde> = seq![];
    let mut i: usize = 0;
    assert(entries@.skip(0) =~= entries@);
    assert(used + usable_fdes(entries@) =~= usable_fdes(entries@));
    // Stop at the first malformed entry and keep what was parsed so far.
    while i < entries.len()
        invariant_except_break
            0 <= i <= entries@.len(),
            used + usable_fdes(entries@.skip(i as int)) == usable_fdes(entries@),
            fdes@ == sorted_fdes(used),
        ensures
            fdes@ == sorted_fdes(usable_fdes(entries@)),
        decreases entries@.len() - i,
    {
        let ghost rest = entries@.skip(i as int);
        assert(rest.drop_first() =~= entries@.skip(i + 1));
        match entries[i] {
            Entry::Malformed => {
                assert(used + usable_fdes(rest) =~= used);
                break;
            },
            Entry::Fde(fde) => {
                if fde.len > 0 {
                    proof {
                        law_index_is_sorted(used);
                        lemma_starts_up_to(fdes@, fde.start);
                        assert(used.push(fde).drop_last() =~= used);
                        let more = usable_fdes(rest.drop_first());
                        assert(used.push(fde) + more =~= used + usable_fdes(rest));
                        used = used.push(fde);
                    }
                    let at = partition_point(&fdes, fde.start);
                    fdes.insert(at, fde);
                }
            },
            _ => {},
        }
        i += 1;
        proof {
            if i == entries@.len() {
                assert(used + usable_fdes(entries@.skip(i as int)) =~= used);
            }
        }
    }
    fdes
}

/// Finds the FDE that covers `pc` among the sorted FDEs.
pub fn find_fde(fdes: &Vec<Fde>, pc: u64) -> (fde: Option<Fde>)
    requires
        is_sorted(fdes@),
    ensures
        fde == covering_fde(fdes@, pc),
        fde is Some <==> exists|i: int| 0 <= i < fdes@.len() && covers(#[trigger] fdes@[i], pc),
{
    let count = partition_point(fdes, pc);
    proof {
        lemma_starts_up_to(fdes@, pc);
        lemma_last_covering(fdes@, pc, count as int, fdes@.len() as int);
        if covering_fde(fdes@, pc) is Some {
            law_found_fde_covers_pc(fdes@, pc);
        }
        assert forall|i: int| 0 <= i < fdes@.len() && covers(
            #[trigger] fdes@[i],
            pc,
        ) implies covering_fde(fdes@, pc) is Some by {
            law_covering_fde_is_found(fdes@, pc, i);
        }
    }
    let mut end: usize = count;
    while end > 0
        invariant
            0 <= end <= fdes@.len(),
            last_covering(fdes@, pc, end as int) == covering_fde(fdes@, pc),
        ensures
            covering_fde(fdes@, pc) is None,
        decreases end,
    {
        let fde = fdes[end - 1];
        if fde.start <= pc && pc < fde.end {
            return Some(fde);
        }
        end -= 1;
    }
    None
}

/// FDEs that don't cover an address don't change which one does.
proof fn lemma_last_covering(fdes: Seq<Fde>, pc: u64, count: int, end: int)
    requires
        0 <= count <= end <= fdes.len(),
        forall|i: int| count <= i < end ==> !covers(#[trigger] fdes[i], pc),
    ensures
        last_covering(fdes, pc, end) == last_covering(fdes, pc, count),
    decreases end,
{
    if count < end {
        lemma_last_covering(fdes, pc, count, end - 1);
    }
}

/// The last covering FDE is one of them, and no later one covers the address.
proof fn lemma_last_covering_is_last(fdes: Seq<Fde>, pc: u64, end: int)
    requires
        0 <= end <= fdes.len(),
    ensures
        match last_covering(fdes, pc, end) {
            Some(fde) => exists|k: int|
                0 <= k < end && #[trigger] fdes[k] == fde && covers(fde, pc) && forall|i: int|
                    k < i < end ==> !covers(#[trigger] fdes[i], pc),
            None => forall|i: int| 0 <= i < end ==> !covers(#[trigger] fdes[i], pc),
        },
    decreases end,
{
    if end > 0 {
        if covers(fdes[end - 1], pc) {
            assert(fdes[end - 1] == last_covering(fdes, pc, end)->0);
        } else {
            lemma_last_covering_is_last(fdes, pc, end - 1);
            if let Some(fde) = last_covering(fdes, pc, end) {
                let k = choose|k: int|
                    0 <= k < end - 1 && #[trigger] fdes[k] == fde && covers(fde, pc) && forall|
                        i: int,
                    |
                        k < i < end - 1 ==> !covers(#[trigger] fdes[i], pc);
                assert(fdes[k] == fde);
            }
        }
    }
}

/// An indexed unwind section.
pub trait CfiTable {
    /// The unwind rules in effect at `pc`, if the section covers it.
    spec fn rules_at(&self, pc: u64) -> Option<RowRules>;

    /// Returns the unwind rules in effect at `pc`, if the section covers it.
    fn row(&self, pc: u64) -> (row: Option<Row>)
        ensures
            row matches Some(r) ==> r.wf() && self.rules_at(pc) == Some(r@),
            row is None ==> self.rules_at(pc) is None,
    ;
}

/// An unwind section, with its FDEs indexed by address.
pub struct Table<'a> {
    section: CfiSection<'a>,
    /// All FDEs of the section, sorted by their start address.
    fdes: Vec<Fde>,
}

impl<'a> View for Table<'a> {
    type V = CfiContents;

    closed spec fn view(&self) -> CfiContents {
        self.section@
    }
}

impl<'a> Table<'a> {
    #[verifier::type_invariant]
    spec fn indexed(self) -> bool {
        &&& self.section@.wf()
        &&& self.fdes@ == sorted_fdes(usable_fdes(self.section@.entries()))
    }

    /// Indexes an unwind section.
    pub fn new(section: CfiSection<'a>) -> (table: Self)
        requires
            section@.wf(),
        ensures
            table@ == section@,
    {
        let entries = section.entries();
        let fdes = index_fdes(&entries);
        Table { section, fdes }
    }
}

impl<'a> CfiTable for Table<'a> {
    open spec fn rules_at(&self, pc: u64) -> Option<RowRules> {
        self@.row(pc)
    }

    fn row(&self, pc: u64) -> (row: Option<Row>) {
        proof {
            use_type_invariant(&*self);
            law_index_is_sorted(usable_fdes(self.section@.entries()));
        }
        let Some(fde) = find_fde(&self.fdes, pc) else {
            return None;
        };
        let Some(rows) = self.section.rows(fde.offset) else {
            return None;
        };
        Row::at(&rows, fde, pc)
    }
}

/// An FDE that is found for an address is one of those that were searched, and
/// covers the address.
pub proof fn law_found_fde_covers_pc(fdes: Seq<Fde>, pc: u64)
    ensures
        covering_fde(fdes, pc) matches Some(fde) ==> fdes.contains(fde) && covers(fde, pc),
{
    lemma_last_covering_is_last(fdes, pc, fdes.len() as int);
}

/// An address that any of the sorted FDEs covers is found, however they are nested,
/// and none of those that cover it starts later than the one that is found.
pub proof fn law_covering_fde_is_found(fdes: Seq<Fde>, pc: u64, k: int)
    requires
        is_sorted(fdes),
        0 <= k < fdes.len(),
        covers(fdes[k], pc),
    ensures
        covering_fde(fdes, pc) matches Some(fde) && fdes[k].start <= fde.start,
{
    lemma_last_covering_is_last(fdes, pc, fdes.len() as int);
}

/// A section has unwind rules for every address that one of its FDEs covers, as long
/// as the unwind tables of the FDEs that cover it can be evaluated up to the address.
pub proof fn law_covered_addresses_have_rules(section: CfiContents, pc: u64, k: int)
    requires
        0 <= k < usable_fdes(section.entries()).len(),
        covers(usable_fdes(section.entries())[k], pc),
        forall|fde: Fde|
            usable_fdes(section.entries()).contains(fde) && #[trigger] covers(fde, pc) ==> (
            section.rows(fde.offset) matches Some(rows) && row_index(rows, pc) is Some),
    ensures
        section.row(pc) is Some,
{
    let fdes = usable_fdes(section.entries());
    let sorted = sorted_fdes(fdes);
    law_index_is_sorted(fdes);
    law_index_keeps_fdes(fdes);
    fdes.to_multiset_ensures();
    sorted.to_multiset_ensures();
    assert(fdes.to_multiset().count(fdes[k]) > 0);
    assert(sorted.contains(fdes[k]));
    let at = choose|i: int| 0 <= i < sorted.len() && sorted[i] == fdes[k];
    law_covering_fde_is_found(sorted, pc, at);
    law_found_fde_covers_pc(sorted, pc);
    let fde = covering_fde(sorted, pc)->0;
    assert(sorted.to_multiset().count(fde) > 0);
    assert(covers(fde, pc));
}

/// Indexing stops at the first malformed entry, and keeps what was parsed so far.
pub proof fn law_malformed_entry_ends_index(before: Seq<Entry>, after: Seq<Entry>)
    ensures
        usable_fdes(before + seq![Entry::Malformed] + after) == usable_fdes(before),
    decreases before.len(),
{
    let entries = before + seq![Entry::Malformed] + after;
    if before.len() == 0 {
        assert(entries[0] == Entry::Malformed);
    } else {
        assert(entries.drop_first() =~= before.drop_first() + seq![Entry::Malformed] + after);
        law_malformed_entry_ends_index(before.drop_first(), after);
    }
}

} // verus!
