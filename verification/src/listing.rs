//! Ordering the list of listening ports: by port, then protocol rank, then
//! PID, keeping the input order among entries with the same key.
use vstd::prelude::*;
use crate::types::{entry_views, protocol_rank, ListEntry, ListEntryView};

verus! {

/// The key the list is ordered by: port, protocol rank, PID.
pub open spec fn entry_key(e: ListEntryView) -> (u16, u8, u32) {
    (e.port, protocol_rank(e.protocol), e.pid)
}

/// Lexicographic order on keys (the order of tuples).
pub open spec fn key_le(a: (u16, u8, u32), b: (u16, u8, u32)) -> bool {
    ||| a.0 < b.0
    ||| (a.0 == b.0 && a.1 < b.1)
    ||| (a.0 == b.0 && a.1 == b.1 && a.2 <= b.2)
}

/// Entries in non-decreasing key order.
pub open spec fn sorted_by_key(s: Seq<ListEntryView>) -> bool {
    forall|i: int, j: int| 0 <= i < j < s.len() ==> key_le(entry_key(#[trigger] s[i]), entry_key(#[trigger] s[j]))
}

/// The entries of `s` whose key is `k`, in their order in `s`.
pub open spec fn keyed(s: Seq<ListEntryView>, k: (u16, u8, u32)) -> Seq<ListEntryView>
    decreases s.len(),
{
    if s.len() == 0 {
        seq![]
    } else if entry_key(s.last()) == k {
        keyed(s.drop_last(), k).push(s.last())
    } else {
        keyed(s.drop_last(), k)
    }
}

/// Picking the entries of one key distributes over concatenation.
pub proof fn lemma_keyed_add(a: Seq<ListEntryView>, b: Seq<ListEntryView>, k: (u16, u8, u32))
    ensures
        keyed(a + b, k) == keyed(a, k) + keyed(b, k),
    decreases b.len(),
{
    if b.len() == 0 {
        assert(a + b =~= a);
        assert(keyed(a, k) + keyed(b, k) =~= keyed(a, k));
    } else {
        assert((a + b).drop_last() =~= a + b.drop_last());
        assert((a + b).last() == b.last());
        lemma_keyed_add(a, b.drop_last(), k);
        if entry_key(b.last()) == k {
            assert(keyed(a, k) + keyed(b.drop_last(), k).push(b.last()) =~= (keyed(a, k) + keyed(
                b.drop_last(),
                k,
            )).push(b.last()));
        }
    }
}

/// No entry has key `k`: none is picked.
pub proof fn lemma_keyed_none(s: Seq<ListEntryView>, k: (u16, u8, u32))
    requires
        forall|i: int| 0 <= i < s.len() ==> entry_key(#[trigger] s[i]) != k,
    ensures
        keyed(s, k) == Seq::<ListEntryView>::empty(),
    decreases s.len(),
{
    if s.len() > 0 {
        lemma_keyed_none(s.drop_last(), k);
    }
}

/// Two sequences in key order that agree on the entries of every key are
/// equal: the ordering contract of `sort_list_entries` fixes its result.
pub proof fn lemma_sorted_keyed_unique(a: Seq<ListEntryView>, b: Seq<ListEntryView>)
    requires
        sorted_by_key(a),
        sorted_by_key(b),
        forall|k: (u16, u8, u32)| #[trigger] keyed(a, k) == keyed(b, k),
    ensures
        a == b,
    decreases a.len() + b.len(),
{
    if a.len() == 0 && b.len() == 0 {
        assert(a =~= b);
    } else if a.len() == 0 {
        let k = entry_key(b.last());
        assert(keyed(b, k).len() > 0);
        assert(keyed(a, k).len() == 0);
    } else if b.len() == 0 {
        let k = entry_key(a.last());
        assert(keyed(a, k).len() > 0);
        assert(keyed(b, k).len() == 0);
    } else {
        let ka = entry_key(a.last());
        let kb = entry_key(b.last());
        // the last entries have the same key: each is the greatest key present
        if ka != kb {
            if key_le(ka, kb) {
                // b.last() has key kb, which a must also hold, but every key of a is <= ka < kb
                assert(keyed(b, kb).len() > 0);
                lemma_keyed_max(a, kb);
                assert(keyed(a, kb) == keyed(b, kb));
            } else {
                assert(keyed(a, ka).len() > 0);
                lemma_keyed_max(b, ka);
                assert(keyed(a, ka) == keyed(b, ka));
            }
        }
        assert(ka == kb);
        assert(keyed(a, ka) == keyed(b, ka));
        assert(a.last() == keyed(a, ka).last());
        assert(b.last() == keyed(b, kb).last());
        assert forall|k: (u16, u8, u32)| #[trigger] keyed(a.drop_last(), k) == keyed(b.drop_last(), k) by {
            assert(keyed(a, k) == keyed(b, k));
            if k == ka {
                assert(keyed(a.drop_last(), k) =~= keyed(a, k).drop_last());
                assert(keyed(b.drop_last(), k) =~= keyed(b, k).drop_last());
            } else {
                assert(keyed(a, k) == keyed(a.drop_last(), k));
                assert(keyed(b, k) == keyed(b.drop_last(), k));
            }
        }
        lemma_sorted_drop_last(a);
        lemma_sorted_drop_last(b);
        lemma_sorted_keyed_unique(a.drop_last(), b.drop_last());
        assert(a =~= a.drop_last().push(a.last()));
        assert(b =~= b.drop_last().push(b.last()));
    }
}

proof fn lemma_sorted_drop_last(s: Seq<ListEntryView>)
    requires
        sorted_by_key(s),
        s.len() > 0,
    ensures
        sorted_by_key(s.drop_last()),
{
    assert forall|i: int, j: int| 0 <= i < j < s.drop_last().len() implies key_le(
        entry_key(#[trigger] s.drop_last()[i]),
        entry_key(#[trigger] s.drop_last()[j]),
    ) by {
        assert(s.drop_last()[i] == s[i]);
        assert(s.drop_last()[j] == s[j]);
    }
}

/// In a sequence in key order, a key above the last entry's key picks
/// nothing.
proof fn lemma_keyed_max(s: Seq<ListEntryView>, k: (u16, u8, u32))
    requires
        sorted_by_key(s),
        s.len() > 0,
        key_le(entry_key(s.last()), k),
        entry_key(s.last()) != k,
    ensures
        keyed(s, k).len() == 0,
{
    assert forall|i: int| 0 <= i < s.len() implies entry_key(#[trigger] s[i]) != k by {
        if i < s.len() - 1 {
            assert(key_le(entry_key(s[i]), entry_key(s[s.len() - 1])));
        }
    }
    lemma_keyed_none(s, k);
}

fn key_of(e: &ListEntry) -> (k: (u16, u8, u32))
    ensures
        k == entry_key(e@),
{
    (e.port, e.protocol.sort_key(), e.pid)
}

fn key_le_exec(a: (u16, u8, u32), b: (u16, u8, u32)) -> (r: bool)
    ensures
        r == key_le(a, b),
{
    a.0 < b.0 || (a.0 == b.0 && a.1 < b.1) || (a.0 == b.0 && a.1 == b.1 && a.2 <= b.2)
}

/// Orders the list entries by (port, protocol rank, PID), keeping the input
/// order among entries with equal keys (a stable sort).
pub fn sort_list_entries(entries: Vec<ListEntry>) -> (r: Vec<ListEntry>)
    ensures
        sorted_by_key(entry_views(r@)),
        forall|k: (u16, u8, u32)| #[trigger] keyed(entry_views(r@), k) == keyed(entry_views(entries@), k),
{
    let ghost input = entry_views(entries@);
    let mut r: Vec<ListEntry> = Vec::new();
    let n = entries.len();
    assert(input.take(0) =~= Seq::<ListEntryView>::empty());
    assert forall|k: (u16, u8, u32)| #[trigger] keyed(entry_views(r@), k) == keyed(input.take(0), k) by {
        assert(entry_views(r@) =~= Seq::<ListEntryView>::empty());
    }
    let mut i: usize = 0;
    while i < n
        invariant
            n == entries@.len(),
            input == entry_views(entries@),
            i <= n,
            sorted_by_key(entry_views(r@)),
            forall|k: (u16, u8, u32)| #[trigger] keyed(entry_views(r@), k) == keyed(input.take(i as int), k),
        decreases n - i,
    {
        let x = entries[i].clone();
        assert(x@ == input[i as int]);
        let kx = key_of(&x);
        let ghost old_r = entry_views(r@);
        // find the insertion point: after every entry whose key is <= kx
        let mut p = r.len();
        while p > 0 && !key_le_exec(key_of(&r[p - 1]), kx)
            invariant
                p <= r@.len(),
                old_r == entry_views(r@),
                sorted_by_key(old_r),
                forall|j: int| p <= j < old_r.len() ==> !key_le(entry_key(#[trigger] old_r[j]), kx),
            decreases p,
        {
            assert(old_r[p - 1] == r@[p - 1]@);
            p = p - 1;
        }
        proof {
            if p > 0 {
                assert(old_r[p - 1] == r@[p - 1]@);
            }
            assert forall|j: int| 0 <= j < p implies key_le(entry_key(#[trigger] old_r[j]), kx) by {
                if j < p - 1 {
                    assert(key_le(entry_key(old_r[j]), entry_key(old_r[p - 1])));
                }
            }
        }
        r.insert(p, x);
        let ghost new_r = entry_views(r@);
        assert(new_r =~= old_r.take(p as int) + seq![x@] + old_r.skip(p as int));
        assert(old_r =~= old_r.take(p as int) + old_r.skip(p as int));
        assert(input.take(i + 1) =~= input.take(i as int).push(input[i as int]));
        assert forall|a: int, b: int| 0 <= a < b < new_r.len() implies key_le(
            entry_key(#[trigger] new_r[a]),
            entry_key(#[trigger] new_r[b]),
        ) by {
            if b < p {
                assert(new_r[a] == old_r[a] && new_r[b] == old_r[b]);
            } else if b == p {
                assert(new_r[a] == old_r[a]);
            } else if a > p {
                assert(new_r[a] == old_r[a - 1] && new_r[b] == old_r[b - 1]);
            } else if a == p {
                assert(new_r[b] == old_r[b - 1]);
            } else {
                assert(new_r[a] == old_r[a] && new_r[b] == old_r[b - 1]);
            }
        }
        assert forall|k: (u16, u8, u32)| #[trigger] keyed(new_r, k) == keyed(input.take(i + 1), k) by {
            assert(keyed(old_r, k) == keyed(input.take(i as int), k));
            assert(input.take(i + 1).drop_last() =~= input.take(i as int));
            assert(input.take(i + 1).last() == x@);
            let lo = old_r.take(p as int);
            let hi = old_r.skip(p as int);
            lemma_keyed_add(lo + seq![x@], hi, k);
            lemma_keyed_add(lo, seq![x@], k);
            lemma_keyed_add(lo, hi, k);
            assert(seq![x@].drop_last() =~= Seq::<ListEntryView>::empty());
            assert(seq![x@].last() == x@);
            assert(keyed(Seq::<ListEntryView>::empty(), k) =~= Seq::<ListEntryView>::empty());
            assert(keyed(seq![x@].drop_last(), k) =~= Seq::<ListEntryView>::empty());
            if k == kx {
                assert forall|j: int| 0 <= j < hi.len() implies entry_key(#[trigger] hi[j]) != k by {
                    assert(hi[j] == old_r[p + j]);
                }
                lemma_keyed_none(hi, k);
                assert(keyed(seq![x@], k) =~= seq![x@]);
                assert(keyed(lo, k) + seq![x@] =~= keyed(lo, k).push(x@));
                assert(keyed(lo, k) + Seq::<ListEntryView>::empty() =~= keyed(lo, k));
                assert(keyed(old_r, k) == keyed(lo, k));
                assert(keyed(new_r, k) == keyed(lo, k).push(x@));
                assert(keyed(input.take(i + 1), k) == keyed(input.take(i as int), k).push(x@));
            } else {
                assert(keyed(seq![x@], k) =~= Seq::<ListEntryView>::empty());
                assert(keyed(lo, k) + Seq::<ListEntryView>::empty() =~= keyed(lo, k));
                assert(keyed(new_r, k) == keyed(lo, k) + keyed(hi, k));
                assert(keyed(input.take(i + 1), k) == keyed(input.take(i as int), k));
            }
        }
        i = i + 1;
    }
    assert(input.take(n as int) =~= input);
    r
}

/// An entry occurs in `s` as often as among the entries of its key.
pub proof fn lemma_keyed_count(s: Seq<ListEntryView>, e: ListEntryView)
    ensures
        s.to_multiset().count(e) == keyed(s, entry_key(e)).to_multiset().count(e),
    decreases s.len(),
{
    broadcast use vstd::seq_lib::group_to_multiset_ensures;

    if s.len() == 0 {
    } else {
        let rest = s.drop_last();
        lemma_keyed_count(rest, e);
        assert(s =~= rest.push(s.last()));
        if entry_key(s.last()) == entry_key(e) {
            assert(keyed(s, entry_key(e)) == keyed(rest, entry_key(e)).push(s.last()));
        } else {
            assert(keyed(s, entry_key(e)) == keyed(rest, entry_key(e)));
        }
    }
}

/// Sequences that agree on the entries of every key hold the same entries,
/// each as often: the sorted list is a reordering of its input.
pub proof fn lemma_same_keys_same_multiset(a: Seq<ListEntryView>, b: Seq<ListEntryView>)
    requires
        forall|k: (u16, u8, u32)| #[trigger] keyed(a, k) == keyed(b, k),
    ensures
        a.to_multiset() == b.to_multiset(),
{
    assert forall|e: ListEntryView| a.to_multiset().count(e) == b.to_multiset().count(e) by {
        lemma_keyed_count(a, e);
        lemma_keyed_count(b, e);
        assert(keyed(a, entry_key(e)) == keyed(b, entry_key(e)));
    }
    assert(a.to_multiset() =~= b.to_multiset());
}

} // verus!
