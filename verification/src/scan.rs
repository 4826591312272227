//! Walks over the 32-bit address space.
use vstd::prelude::*;
use vstd::set_lib::{lemma_int_range, lemma_len_subset, set_int_range};

verus! {

/// How many addresses there are.
pub const ADDRESS_COUNT: u64 = 0x1_0000_0000;

/// Whether a walk ends within `n` steps. It starts at `addr`; `next` is the address
/// after another, or `None` where a walk ends.
pub open spec fn ends_within(next: spec_fn(u32) -> Option<u32>, addr: u32, n: nat) -> bool
    decreases n,
{
    match next(addr) {
        Some(other) => n > 0 && ends_within(next, other, (n - 1) as nat),
        None => true,
    }
}

/// The address that a walk comes to after `n` steps, if it doesn't end before.
spec fn after_steps(next: spec_fn(u32) -> Option<u32>, addr: u32, n: nat) -> u32
    decreases n,
{
    if n == 0 {
        addr
    } else {
        match next(addr) {
            Some(other) => after_steps(next, other, (n - 1) as nat),
            None => addr,
        }
    }
}

/// A walk that ends still ends after some of its steps, and the other way round.
proof fn lemma_after_steps(next: spec_fn(u32) -> Option<u32>, addr: u32, i: nat, n: nat)
    requires
        !ends_within(next, addr, i),
    ensures
        ends_within(next, after_steps(next, addr, i), n) <==> ends_within(next, addr, i + n),
    decreases i,
{
    if i > 0 {
        if let Some(other) = next(addr) {
            lemma_after_steps(next, other, (i - 1) as nat, n);
        }
    }
}

/// A walk that ends within some steps ends within more of them.
pub proof fn lemma_more_steps(next: spec_fn(u32) -> Option<u32>, addr: u32, n: nat, m: nat)
    requires
        ends_within(next, addr, n),
        n <= m,
    ensures
        ends_within(next, addr, m),
    decreases n,
{
    if let Some(other) = next(addr) {
        lemma_more_steps(next, other, (n - 1) as nat, (m - 1) as nat);
    }
}

/// A walk that ends does so before it has made as many steps as there are
/// addresses: otherwise it would come to some address twice, and go round in
/// circles from there.
pub proof fn law_walks_end_soon_or_never(next: spec_fn(u32) -> Option<u32>, addr: u32, n: nat)
    requires
        ends_within(next, addr, n),
    ensures
        ends_within(next, addr, (ADDRESS_COUNT - 1) as nat),
    decreases n,
{
    if n < ADDRESS_COUNT {
        lemma_more_steps(next, addr, n, (ADDRESS_COUNT - 1) as nat);
    } else if ends_within(next, addr, (n - 1) as nat) {
        law_walks_end_soon_or_never(next, addr, (n - 1) as nat);
    } else {
        // The addresses up to the last one are all different.
        let before = Seq::new(n, |i: int| after_steps(next, addr, i as nat) as int);
        assert forall|i: int, j: int| 0 <= i < j < n implies before[i] != before[j] by {
            if before[i] == before[j] {
                lemma_not_yet(next, addr, i as nat, (n - 1) as nat);
                lemma_not_yet(next, addr, j as nat, (n - 1) as nat);
                lemma_after_steps(next, addr, j as nat, (n - j) as nat);
                lemma_after_steps(next, addr, i as nat, (n - j) as nat);
                lemma_more_steps(next, addr, (i + n - j) as nat, (n - 1) as nat);
            }
        }
        let last = next(after_steps(next, addr, (n - 1) as nat));
        lemma_after_steps(next, addr, (n - 1) as nat, 0);
        lemma_after_steps(next, addr, (n - 1) as nat, 1);
        assert forall|i: int| 0 <= i < n implies before[i] != last->0 by {
            lemma_not_yet(next, addr, i as nat, (n - 1) as nat);
            lemma_after_steps(next, addr, i as nat, 0);
        }
        let visited = before.push(last->0 as int);
        assert(visited.no_duplicates());
        visited.unique_seq_to_set();
        lemma_int_range(0, ADDRESS_COUNT as int);
        let all = set_int_range(0, ADDRESS_COUNT as int);
        assert forall|a: int| visited.to_set().contains(a) implies all.contains(a) by {
            let i = choose|i: int| 0 <= i < visited.len() && visited[i] == a;
        }
        lemma_len_subset(visited.to_set(), all);
    }
}

/// A walk that doesn't end within some steps doesn't end within fewer of them.
proof fn lemma_not_yet(next: spec_fn(u32) -> Option<u32>, addr: u32, i: nat, n: nat)
    requires
        !ends_within(next, addr, n),
        i <= n,
    ensures
        !ends_within(next, addr, i),
{
    if ends_within(next, addr, i) {
        lemma_more_steps(next, addr, i, n);
    }
}

} // verus!
