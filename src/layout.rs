//! Packed memory layout of a node: where the header, the key array, the value or child
//! array and the sibling links would sit in one aligned block, and how large it is.
use vstd::layout::{align_of, size_of};
use vstd::prelude::*;

verus! {

/// Size in bytes of a node header: a one-byte tag, padding, and a 32-bit length.
pub const HEADER_SIZE: usize = 8;

/// Alignment in bytes of a node header.
pub const HEADER_ALIGN: usize = 4;

/// `x` rounded up to a multiple of `a`.
pub open spec fn align_up(x: nat, a: nat) -> nat {
    if a == 0 || x % a == 0 {
        x
    } else {
        (x + (a - x % a)) as nat
    }
}

/// The largest of four alignments.
pub open spec fn max_align(a: nat, b: nat, c: nat, d: nat) -> nat {
    let ab = if a >= b { a } else { b };
    let cd = if c >= d { c } else { d };
    if ab >= cd { ab } else { cd }
}

/// Size and alignment of a sibling link.
pub open spec fn link_size() -> nat {
    size_of::<usize>()
}

pub open spec fn link_align() -> nat {
    align_of::<usize>()
}

/// Offsets of a leaf holding `cap` keys of size `ks` and alignment `ka` and as many
/// values of size `vs` and alignment `va`: keys, values, next link, previous link, then
/// the total size and alignment.
pub open spec fn leaf_offsets(cap: nat, ks: nat, ka: nat, vs: nat, va: nat) -> (nat, nat, nat, nat, nat, nat) {
    let keys_off = align_up(HEADER_SIZE as nat, ka);
    let vals_off = align_up(keys_off + cap * ks, va);
    let next_off = align_up(vals_off + cap * vs, link_align());
    let prev_off = next_off + link_size();
    let total_align = max_align(HEADER_ALIGN as nat, ka, va, link_align());
    let total_size = align_up(prev_off + link_size(), total_align);
    (keys_off, vals_off, next_off, prev_off, total_size, total_align)
}

/// Offsets of a branch holding `cap` keys of size `ks` and alignment `ka` and `cap + 1`
/// child links: keys, children, then the total size and alignment.
pub open spec fn branch_offsets(cap: nat, ks: nat, ka: nat) -> (nat, nat, nat, nat) {
    let keys_off = align_up(HEADER_SIZE as nat, ka);
    let children_off = align_up(keys_off + cap * ks, link_align());
    let total_align = max_align(HEADER_ALIGN as nat, ka, link_align(), 1);
    let total_size = align_up(children_off + (cap + 1) * link_size(), total_align);
    (keys_off, children_off, total_size, total_align)
}

/// Where the parts of a leaf sit, in bytes from the start of the node.
#[derive(Debug, Clone, Copy, PartialEq, Eq, Structural)]
pub struct LeafLayout {
    pub total_size: usize,
    pub total_align: usize,
    pub keys_off: usize,
    pub vals_off: usize,
    pub next_off: usize,
    pub prev_off: usize,
}

/// Where the parts of a branch sit, in bytes from the start of the node.
#[derive(Debug, Clone, Copy, PartialEq, Eq, Structural)]
pub struct BranchLayout {
    pub total_size: usize,
    pub total_align: usize,
    pub keys_off: usize,
    pub children_off: usize,
}

proof fn lemma_align_up_ge(x: nat, a: nat)
    ensures
        align_up(x, a) >= x,
{
    if a != 0 && x % a != 0 {
        assert(x % a < a) by (nonlinear_arith)
            requires
                a > 0,
        ;
    }
}

/// `x` rounded up to a multiple of `a`, if that fits in a `usize`.
fn align_up_checked(x: usize, a: usize) -> (r: Option<usize>)
    requires
        a > 0,
    ensures
        r == (if align_up(x as nat, a as nat) <= usize::MAX {
            Some(align_up(x as nat, a as nat) as usize)
        } else {
            None
        }),
{
    let rem = x % a;
    if rem == 0 {
        Some(x)
    } else {
        x.checked_add(a - rem)
    }
}

fn max_of(a: usize, b: usize) -> (r: usize)
    ensures
        r == (if a >= b { a } else { b }),
{
    if a >= b { a } else { b }
}

/// The layout of a leaf with room for `cap` keys and values, or `None` when its size
/// does not fit in a `usize`.
pub fn leaf_layout(cap: usize, key_size: usize, key_align: usize, val_size: usize, val_align: usize) -> (r: Option<LeafLayout>)
    requires
        key_align > 0,
        val_align > 0,
    ensures
        ({
            let o = leaf_offsets(cap as nat, key_size as nat, key_align as nat, val_size as nat, val_align as nat);
            match r {
                Some(l) => l.keys_off == o.0 && l.vals_off == o.1 && l.next_off == o.2 && l.prev_off == o.3
                    && l.total_size == o.4 && l.total_align == o.5,
                None => o.4 > usize::MAX,
            }
        }),
{
    let link_size = core::mem::size_of::<usize>();
    let link_align = core::mem::align_of::<usize>();
    vstd::layout::layout_for_type_is_valid::<usize>();
    let ghost o = leaf_offsets(cap as nat, key_size as nat, key_align as nat, val_size as nat, val_align as nat);
    proof {
        let c = cap as nat;
        let ks = key_size as nat;
        let vs = val_size as nat;
        let keys_off = align_up(HEADER_SIZE as nat, key_align as nat);
        let vals_off = align_up(keys_off + c * ks, val_align as nat);
        let next_off = align_up(vals_off + c * vs, link_align as nat);
        lemma_align_up_ge(HEADER_SIZE as nat, key_align as nat);
        lemma_align_up_ge(keys_off + c * ks, val_align as nat);
        lemma_align_up_ge(vals_off + c * vs, link_align as nat);
        lemma_align_up_ge(next_off + link_size as nat + link_size as nat, o.5);
    }
    let total_align = max_of(max_of(HEADER_ALIGN, key_align), max_of(val_align, link_align));
    let keys_off = match align_up_checked(HEADER_SIZE, key_align) {
        Some(x) => x,
        None => return None,
    };
    let keys_bytes = match cap.checked_mul(key_size) {
        Some(x) => x,
        None => return None,
    };
    let keys_end = match keys_off.checked_add(keys_bytes) {
        Some(x) => x,
        None => return None,
    };
    let vals_off = match align_up_checked(keys_end, val_align) {
        Some(x) => x,
        None => return None,
    };
    let vals_bytes = match cap.checked_mul(val_size) {
        Some(x) => x,
        None => return None,
    };
    let vals_end = match vals_off.checked_add(vals_bytes) {
        Some(x) => x,
        None => return None,
    };
    let next_off = match align_up_checked(vals_end, link_align) {
        Some(x) => x,
        None => return None,
    };
    let prev_off = match next_off.checked_add(link_size) {
        Some(x) => x,
        None => return None,
    };
    let end = match prev_off.checked_add(link_size) {
        Some(x) => x,
        None => return None,
    };
    let total_size = match align_up_checked(end, total_align) {
        Some(x) => x,
        None => return None,
    };
    Some(LeafLayout { total_size, total_align, keys_off, vals_off, next_off, prev_off })
}

/// The layout of a branch with room for `cap` keys and `cap + 1` children, or `None`
/// when its size does not fit in a `usize`.
pub fn branch_layout(cap: usize, key_size: usize, key_align: usize) -> (r: Option<BranchLayout>)
    requires
        key_align > 0,
    ensures
        ({
            let o = branch_offsets(cap as nat, key_size as nat, key_align as nat);
            match r {
                Some(l) => l.keys_off == o.0 && l.children_off == o.1 && l.total_size == o.2 && l.total_align == o.3,
                None => o.2 > usize::MAX,
            }
        }),
{
    let link_size = core::mem::size_of::<usize>();
    let link_align = core::mem::align_of::<usize>();
    vstd::layout::layout_for_type_is_valid::<usize>();
    let ghost o = branch_offsets(cap as nat, key_size as nat, key_align as nat);
    proof {
        let c = cap as nat;
        let ks = key_size as nat;
        let keys_off = align_up(HEADER_SIZE as nat, key_align as nat);
        let children_off = align_up(keys_off + c * ks, link_align as nat);
        lemma_align_up_ge(HEADER_SIZE as nat, key_align as nat);
        lemma_align_up_ge(keys_off + c * ks, link_align as nat);
        lemma_align_up_ge(children_off + (c + 1) * (link_size as nat), o.3);
        assert((c + 1) * (link_size as nat) == c * (link_size as nat) + link_size as nat) by (nonlinear_arith);
    }
    let total_align = max_of(max_of(HEADER_ALIGN, key_align), max_of(link_align, 1));
    let keys_off = match align_up_checked(HEADER_SIZE, key_align) {
        Some(x) => x,
        None => return None,
    };
    let keys_bytes = match cap.checked_mul(key_size) {
        Some(x) => x,
        None => return None,
    };
    let keys_end = match keys_off.checked_add(keys_bytes) {
        Some(x) => x,
        None => return None,
    };
    let children_off = match align_up_checked(keys_end, link_align) {
        Some(x) => x,
        None => return None,
    };
    let links = match cap.checked_mul(link_size) {
        Some(x) => x,
        None => return None,
    };
    let children_bytes = match links.checked_add(link_size) {
        Some(x) => x,
        None => return None,
    };
    let end = match children_off.checked_add(children_bytes) {
        Some(x) => x,
        None => return None,
    };
    let total_size = match align_up_checked(end, total_align) {
        Some(x) => x,
        None => return None,
    };
    Some(BranchLayout { total_size, total_align, keys_off, children_off })
}

} // verus!
