//! The shared chunk palette and the choice of a block for each colour.
use vstd::prelude::*;
use vstd::string::*;
use std::str::FromStr;
use crate::voxel::Voxel;

verus! {

/// Material that fills every empty cell.
pub const AIR_BLOCK: &'static str = "minecraft:air";

/// Block-state text of a material: `{"Name":"<material>"}`.
pub open spec fn state_of(name: Seq<char>) -> Seq<char> {
    seq!['{', '"', 'N', 'a', 'm', 'e', '"', ':', '"'] + name + seq!['"', '}']
}

pub open spec fn air_name() -> Seq<char> {
    seq!['m', 'i', 'n', 'e', 'c', 'r', 'a', 'f', 't', ':', 'a', 'i', 'r']
}

/// Some voxel of the model is painted with colour slot `c`.
pub open spec fn slot_used(voxels: Seq<Voxel>, c: u8) -> bool {
    exists|k: int| 0 <= k < voxels.len() && #[trigger] voxels[k].i == c
}

/// The block-state text of a material.
pub fn block_state(name: &str) -> (r: String)
    ensures
        r@ == state_of(name@),
{
    let mut s = <String as StringExecFns>::from_str("{\"Name\":\"");
    s.append(name);
    s.append("\"}");
    proof {
        reveal_strlit("{\"Name\":\"");
        reveal_strlit("\"}");
        assert(s@ =~= state_of(name@));
    }
    s
}

/// The colour slots of `voxels`, once each, in the order of their first use.
pub open spec fn first_use_order(voxels: Seq<Voxel>) -> Seq<u8>
    decreases voxels.len(),
{
    if voxels.len() == 0 {
        Seq::empty()
    } else {
        let before = first_use_order(voxels.drop_last());
        if before.contains(voxels.last().i) {
            before
        } else {
            before.push(voxels.last().i)
        }
    }
}

/// Entry of the shared palette for each colour slot: the position of the slot
/// in `used`, or the air entry after them for a slot that is not used.
pub open spec fn mapping_of(used: Seq<u8>) -> Seq<u16> {
    Seq::new(
        256,
        |s: int|
            if exists|k: int| 0 <= k < used.len() && used[k] == s {
                (choose|k: int| 0 <= k < used.len() && used[k] == s) as u16
            } else {
                used.len() as u16
            },
    )
}

/// Every colour slot that the model uses, once each, in the order in which
/// the voxels first use them.
pub fn used_colors(voxels: &Vec<Voxel>) -> (r: Vec<u8>)
    ensures
        r@ == first_use_order(voxels@),
        r@.no_duplicates(),
        r@.len() <= 256,
        forall|c: u8| r@.contains(c) <==> slot_used(voxels@, c),
{
    let mut seen: Vec<bool> = Vec::new();
    while seen.len() < 256
        invariant
            seen@.len() <= 256,
            forall|c: int| 0 <= c < seen@.len() ==> !#[trigger] seen@[c],
        decreases 256 - seen@.len(),
    {
        seen.push(false);
    }
    let mut used: Vec<u8> = Vec::new();
    let mut k: usize = 0;
    while k < voxels.len()
        invariant
            k <= voxels@.len(),
            seen@.len() == 256,
            used@.no_duplicates(),
            used@.len() <= 256,
            forall|c: u8| seen@[c as int] <==> used@.contains(c),
            forall|c: u8| used@.contains(c) <==> slot_used(voxels@.take(k as int), c),
            used@ == first_use_order(voxels@.take(k as int)),
        decreases voxels@.len() - k,
    {
        let c = voxels[k].i;
        assert(voxels@.take(k + 1).drop_last() =~= voxels@.take(k as int));
        proof {
            assert forall|d: u8| slot_used(voxels@.take(k + 1), d) <==> (slot_used(
                voxels@.take(k as int),
                d,
            ) || d == c) by {
                if slot_used(voxels@.take(k + 1), d) && d != c {
                    let j = choose|j: int|
                        0 <= j < k + 1 && #[trigger] voxels@.take(k + 1)[j].i == d;
                    assert(voxels@.take(k as int)[j].i == d);
                }
                if slot_used(voxels@.take(k as int), d) {
                    let j = choose|j: int| 0 <= j < k && #[trigger] voxels@.take(k as int)[j].i == d;
                    assert(voxels@.take(k + 1)[j].i == d);
                }
                if d == c {
                    assert(voxels@.take(k + 1)[k as int].i == d);
                }
            }
        }
        if !seen[c as usize] {
            proof {
                if used@.len() >= 256 {
                    // every slot is already listed, so `c` would be too
                    let all = Set::new(|d: u8| true);
                    assert(used@.to_set().subset_of(all));
                    lemma_u8_set_len();
                    used@.unique_seq_to_set();
                    assert(used@.to_set() =~= all) by {
                        vstd::set_lib::lemma_subset_equality(used@.to_set(), all);
                    }
                    assert(used@.to_set().contains(c));
                }
            }
            let ghost old_seen = seen@;
            let ghost old_used = used@;
            seen.set(c as usize, true);
            used.push(c);
            assert(used@.drop_last() =~= old_used);
            proof {
                assert forall|d: u8| seen@[d as int] <==> used@.contains(d) by {
                    if d != c {
                        assert(seen@[d as int] == old_seen[d as int]);
                        if used@.drop_last().contains(d) {
                            let j = choose|j: int| 0 <= j < used@.drop_last().len() && used@.drop_last()[j] == d;
                            assert(used@[j] == d);
                        }
                        if used@.contains(d) {
                            let j = choose|j: int| 0 <= j < used@.len() && used@[j] == d;
                            assert(used@.drop_last()[j] == d);
                        }
                    } else {
                        assert(used@[used@.len() - 1] == c);
                    }
                }
            }
        }
        k = k + 1;
    }
    assert(voxels@.take(voxels@.len() as int) =~= voxels@);
    used
}

proof fn lemma_u8_set_len()
    ensures
        Set::new(|d: u8| true).len() == 256,
        Set::new(|d: u8| true).finite(),
{
    let s = Set::new(|d: u8| true);
    let r = Set::new(|i: int| 0 <= i < 256);
    assert forall|d: u8| #[trigger] s.contains(d) implies r.map(|i: int| i as u8).contains(d) by {
        assert(r.contains(d as int));
        assert((d as int) as u8 == d);
    }
    assert(s =~= r.map(|i: int| i as u8));
    vstd::set_lib::lemma_int_range(0, 256);
    assert(r =~= vstd::set_lib::set_int_range(0, 256));
    assert(vstd::relations::injective_on(|i: int| i as u8, r)) by {
        assert forall|a: int, b: int| r.contains(a) && r.contains(b) && #[trigger] (a as u8) == #[trigger] (b as u8) implies a == b by {}
    }
    vstd::set_lib::lemma_map_size(r, s, |i: int| i as u8);
}


/// The colour slots that a model uses.
pub open spec fn distinct_slots(voxels: Seq<Voxel>) -> Set<u8> {
    Set::new(|c: u8| slot_used(voxels, c))
}

/// A list that names each used colour slot once has as many entries as the
/// model has distinct colour slots.
pub proof fn lemma_used_colors_count(voxels: Seq<Voxel>, used: Seq<u8>)
    requires
        used.no_duplicates(),
        forall|c: u8| used.contains(c) <==> slot_used(voxels, c),
    ensures
        used.len() == distinct_slots(voxels).len(),
{
    used.unique_seq_to_set();
    assert(used.to_set() =~= distinct_slots(voxels));
}

/// The shared chunk palette: one block state per used colour, in the order of
/// `used`, with air as the last entry.
pub fn shared_palette(materials: &Vec<String>) -> (r: Vec<String>)
    requires
        materials@.len() <= 256,
    ensures
        r@.len() == materials@.len() + 1,
        forall|k: int| 0 <= k < materials@.len() ==> #[trigger] r@[k]@ == state_of(materials@[k]@),
        r@[materials@.len() as int]@ == state_of(air_name()),
{
    let mut r: Vec<String> = Vec::new();
    let mut k: usize = 0;
    while k < materials.len()
        invariant
            k <= materials@.len(),
            r@.len() == k,
            forall|j: int| 0 <= j < k ==> #[trigger] r@[j]@ == state_of(materials@[j]@),
        decreases materials@.len() - k,
    {
        r.push(block_state(materials[k].as_str()));
        k = k + 1;
    }
    let air = block_state(AIR_BLOCK);
    proof {
        reveal_strlit("minecraft:air");
        assert(AIR_BLOCK@ =~= air_name());
    }
    r.push(air);
    r
}

/// Maps each colour slot to its entry of the shared palette; a slot that
/// `used` does not list maps to the air entry.
pub fn palette_mapping(used: &Vec<u8>) -> (r: Vec<u16>)
    requires
        used@.no_duplicates(),
        used@.len() <= 256,
    ensures
        r@.len() == 256,
        r@ == mapping_of(used@),
        forall|k: int| 0 <= k < used@.len() ==> #[trigger] r@[used@[k] as int] == k,
        forall|c: u8| !used@.contains(c) ==> #[trigger] r@[c as int] == used@.len(),
        forall|s: int| 0 <= s < 256 ==> #[trigger] r@[s] <= used@.len(),
{
    let n = used.len() as u16;
    let mut r: Vec<u16> = Vec::new();
    while r.len() < 256
        invariant
            r@.len() <= 256,
            n == used@.len(),
            forall|s: int| 0 <= s < r@.len() ==> #[trigger] r@[s] == n,
        decreases 256 - r@.len(),
    {
        r.push(n);
    }
    let mut k: usize = 0;
    while k < used.len()
        invariant
            k <= used@.len(),
            n == used@.len(),
            used@.no_duplicates(),
            r@.len() == 256,
            forall|j: int| 0 <= j < k ==> #[trigger] r@[used@[j] as int] == j,
            forall|c: u8| !used@.take(k as int).contains(c) ==> #[trigger] r@[c as int] == n,
            forall|s: int| 0 <= s < 256 ==> #[trigger] r@[s] <= n,
        decreases used@.len() - k,
    {
        let c = used[k];
        let ghost before = r@;
        r.set(c as usize, k as u16);
        proof {
            assert forall|j: int| 0 <= j < k + 1 implies #[trigger] r@[used@[j] as int] == j by {
                if j < k {
                    assert(used@[j] != used@[k as int]);
                }
            }
            assert forall|d: u8| !used@.take(k + 1).contains(d) implies #[trigger] r@[d as int] == n by {
                assert(used@.take(k + 1)[k as int] == c);
                if used@.take(k as int).contains(d) {
                    let j = choose|j: int| 0 <= j < k && used@.take(k as int)[j] == d;
                    assert(used@.take(k + 1)[j] == d);
                }
            }
        }
        k = k + 1;
    }
    proof {
        assert(used@.take(used@.len() as int) =~= used@);
        assert forall|s: int| 0 <= s < 256 implies #[trigger] r@[s] == mapping_of(used@)[s] by {
            if exists|k: int| 0 <= k < used@.len() && used@[k] == s {
                let k = choose|k: int| 0 <= k < used@.len() && used@[k] == s;
                assert(r@[used@[k] as int] == k);
            } else {
                assert(!used@.contains(s as u8));
            }
        }
        assert(r@ =~= mapping_of(used@));
    }
    r
}


/// The first-use order lists each used colour slot exactly once.
pub proof fn lemma_first_use_order(voxels: Seq<Voxel>)
    ensures
        first_use_order(voxels).no_duplicates(),
        forall|c: u8| first_use_order(voxels).contains(c) <==> slot_used(voxels, c),
    decreases voxels.len(),
{
    if voxels.len() > 0 {
        let rest = voxels.drop_last();
        lemma_first_use_order(rest);
        assert forall|c: u8| slot_used(voxels, c) <==> (slot_used(rest, c) || voxels.last().i == c) by {
            if slot_used(voxels, c) && voxels.last().i != c {
                let j = choose|j: int| 0 <= j < voxels.len() && #[trigger] voxels[j].i == c;
                assert(rest[j].i == c);
            }
            if slot_used(rest, c) {
                let j = choose|j: int| 0 <= j < rest.len() && #[trigger] rest[j].i == c;
                assert(voxels[j].i == c);
            }
            if voxels.last().i == c {
                assert(voxels[voxels.len() - 1].i == c);
            }
        }
        let before = first_use_order(rest);
        if !before.contains(voxels.last().i) {
            let after = before.push(voxels.last().i);
            assert forall|c: u8| after.contains(c) <==> (before.contains(c) || c == voxels.last().i) by {
                if after.contains(c) && c != voxels.last().i {
                    let j = choose|j: int| 0 <= j < after.len() && after[j] == c;
                    assert(before[j] == c);
                }
                if before.contains(c) {
                    let j = choose|j: int| 0 <= j < before.len() && before[j] == c;
                    assert(after[j] == c);
                }
                if c == voxels.last().i {
                    assert(after[before.len() as int] == c);
                }
            }
        }
    }
}
} // verus!
