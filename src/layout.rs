//! The layout walk: properties in offset order, checked against the running end
//! of the layout and the alignment of each property.
use vstd::prelude::*;
use crate::model::{aligned_props, NativeProperty};

verus! {

/// `c` rounded up to the next multiple of `a`.
pub open spec fn round_up(c: int, a: int) -> int {
    if c % a == 0 {
        c
    } else {
        c - c % a + a
    }
}

/// Inserts index `x` into `t` after every index whose property has an offset
/// not above that of `x`.
pub open spec fn insert_by_offset(props: Seq<NativeProperty>, t: Seq<usize>, x: usize) -> Seq<usize>
    decreases t.len(),
{
    if t.len() == 0 {
        seq![x]
    } else if props[t.last() as int].value_offset <= props[x as int].value_offset {
        t.push(x)
    } else {
        insert_by_offset(props, t.drop_last(), x).push(t.last())
    }
}

/// The indices `0..n` of `props`, stably sorted by offset.
pub open spec fn offset_order(props: Seq<NativeProperty>, n: nat) -> Seq<usize>
    decreases n,
{
    if n == 0 {
        Seq::empty()
    } else {
        insert_by_offset(props, offset_order(props, (n - 1) as nat), (n - 1) as usize)
    }
}

/// The state of the walk after the properties `order` of `props`: the running
/// end of the layout, whether padding or an overlap was seen, whether the walk
/// stopped at an overlap, and the names of the properties walked.
pub open spec fn scan(props: Seq<NativeProperty>, order: Seq<usize>) -> (int, bool, bool, Set<Seq<char>>)
    decreases order.len(),
{
    if order.len() == 0 {
        (0, false, false, Set::empty())
    } else {
        let prev = scan(props, order.drop_last());
        let p = props[order.last() as int];
        if prev.2 {
            prev
        } else if (p.value_offset as int) < prev.0 {
            (prev.0, true, true, prev.3)
        } else {
            (
                p.value_offset + p.size,
                prev.1 || p.value_offset != round_up(prev.0, p.alignment as int),
                false,
                prev.3.insert(p.name@),
            )
        }
    }
}

/// A record with properties `props` is sealed against the scripted field names
/// `fields`: walked in offset order, its layout shows no gap and no overlap,
/// and every scripted name is the name of a walked property.
pub open spec fn layout_sealed(fields: Seq<Seq<char>>, props: Seq<NativeProperty>) -> bool {
    let st = scan(props, offset_order(props, props.len()));
    !st.1 && forall|j: int| 0 <= j < fields.len() ==> st.3.contains(#[trigger] fields[j])
}

proof fn lemma_insert_at(props: Seq<NativeProperty>, t: Seq<usize>, x: usize, j: int)
    requires
        0 <= j <= t.len(),
        forall|k: int| j <= k < t.len() ==> props[#[trigger] t[k] as int].value_offset > props[x as int].value_offset,
        j > 0 ==> props[t[j - 1] as int].value_offset <= props[x as int].value_offset,
    ensures
        insert_by_offset(props, t, x) == t.insert(j, x),
    decreases t.len(),
{
    if t.len() == 0 {
        assert(t.insert(j, x) =~= seq![x]);
    } else if j == t.len() {
        assert(t.insert(j, x) =~= t.push(x));
    } else {
        assert(t[t.len() - 1] == t.last());
        lemma_insert_at(props, t.drop_last(), x, j);
        assert(t.drop_last().insert(j, x).push(t.last()) =~= t.insert(j, x));
    }
}

/// The indices of `props`, stably sorted by the properties' offsets.
pub fn sort_by_offset(props: &Vec<NativeProperty>) -> (order: Vec<usize>)
    ensures
        order@ == offset_order(props@, props@.len()),
        order@.len() == props@.len(),
        forall|k: int| 0 <= k < order@.len() ==> #[trigger] order@[k] < props@.len(),
{
    let mut order: Vec<usize> = Vec::new();
    let mut i: usize = 0;
    while i < props.len()
        invariant
            i <= props.len(),
            order@ == offset_order(props@, i as nat),
            order@.len() == i,
            forall|k: int| 0 <= k < order@.len() ==> #[trigger] order@[k] < i,
        decreases props.len() - i,
    {
        let off = props[i].value_offset;
        let mut j: usize = order.len();
        while j > 0 && props[order[j - 1]].value_offset > off
            invariant
                j <= order@.len(),
                order@.len() == i,
                i < props.len(),
                off == props@[i as int].value_offset,
                forall|k: int| 0 <= k < order@.len() ==> #[trigger] order@[k] < i,
                forall|k: int| j <= k < order@.len() ==> props@[#[trigger] order@[k] as int].value_offset > off,
            decreases j,
        {
            j = j - 1;
        }
        proof {
            lemma_insert_at(props@, order@, i, j as int);
        }
        let ghost before = order@;
        order.insert(j, i);
        i = i + 1;
        assert forall|k: int| 0 <= k < order@.len() implies #[trigger] order@[k] < i by {
            if k > j {
                assert(order@[k] == before[k - 1]);
            }
        }
    }
    order
}

/// Whether a record with properties `props` is sealed against the scripted
/// field names `fields`.
pub fn is_sealed_layout(fields: &Vec<String>, props: &Vec<NativeProperty>) -> (r: bool)
    requires
        aligned_props(props@),
    ensures
        r == layout_sealed(fields@.map_values(|f: String| f@), props@),
{
    let order = sort_by_offset(props);
    let ghost names = fields@.map_values(|f: String| f@);
    let mut current: u64 = 0;
    let mut padding = false;
    let mut stopped = false;
    let mut matched: Vec<bool> = Vec::new();
    let mut j: usize = 0;
    while j < fields.len()
        invariant
            j <= fields@.len(),
            matched@.len() == j,
            forall|k: int| 0 <= k < j ==> !#[trigger] matched@[k],
        decreases fields.len() - j,
    {
        matched.push(false);
        j = j + 1;
    }
    let mut i: usize = 0;
    while i < order.len()
        invariant
            aligned_props(props@),
            order@ == offset_order(props@, props@.len()),
            forall|k: int| 0 <= k < order@.len() ==> #[trigger] order@[k] < props@.len(),
            i <= order@.len(),
            matched@.len() == fields@.len(),
            names == fields@.map_values(|f: String| f@),
            names.len() == fields@.len(),
            current <= 0x2_0000_0000,
            (current as int, padding, stopped, scan(props@, order@.take(i as int)).3)
                == scan(props@, order@.take(i as int)),
            forall|k: int| 0 <= k < matched@.len() ==>
                (#[trigger] matched@[k] <==> scan(props@, order@.take(i as int)).3.contains(names[k])),
        decreases order.len() - i,
    {
        proof {
            assert(order@.take(i as int + 1).drop_last() =~= order@.take(i as int));
        }
        if !stopped {
            let p = &props[order[i]];
            let off = p.value_offset as u64;
            if off < current {
                padding = true;
                stopped = true;
            } else {
                let al = p.alignment as u64;
                assert(props@[order@[i as int] as int].alignment > 0);
                let rem = current % al;
                assert(rem < al);
                let target = if rem == 0 { current } else { current + (al - rem) };
                if off != target {
                    padding = true;
                }
                let mut k: usize = 0;
                while k < fields.len()
                    invariant
                        k <= fields@.len(),
                        matched@.len() == fields@.len(),
                        names == fields@.map_values(|f: String| f@),
                        names.len() == fields@.len(),
                        forall|m: int| 0 <= m < k ==> (#[trigger] matched@[m] <==> (
                            scan(props@, order@.take(i as int)).3.contains(names[m]) || names[m] == p.name@)),
                        forall|m: int| k <= m < matched@.len() ==> (#[trigger] matched@[m] <==>
                            scan(props@, order@.take(i as int)).3.contains(names[m])),
                    decreases fields.len() - k,
                {
                    if fields[k] == p.name {
                        matched.set(k, true);
                    }
                    k = k + 1;
                }
                current = off + p.size as u64;
            }
        }
        i = i + 1;
    }
    assert(order@.take(order@.len() as int) =~= order@);
    let mut all = true;
    let mut k: usize = 0;
    while k < matched.len()
        invariant
            k <= matched@.len(),
            all == forall|m: int| 0 <= m < k ==> #[trigger] matched@[m],
        decreases matched.len() - k,
    {
        if !matched[k] {
            all = false;
        }
        k = k + 1;
    }
    let r = all && !padding;
    proof {
        let st = scan(props@, order@);
        if all {
            assert forall|m: int| 0 <= m < names.len() implies st.3.contains(#[trigger] names[m]) by {
                assert(matched@[m]);
            }
        } else {
            let m = choose|m: int| 0 <= m < matched@.len() && !#[trigger] matched@[m];
            assert(!st.3.contains(names[m]));
        }
    }
    assert(r == layout_sealed(names, props@));
    r
}

} // verus!
