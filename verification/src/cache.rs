//! A cache of names whose entries expire.

use vstd::prelude::*;

use crate::table::{lemma_map_of, Table};

verus! {

/// A remembered value and the time in milliseconds at which it expires.
pub struct Cached<V> {
    pub value: V,
    pub expires_ms: u64,
}

/// The entries of a cache that have not expired.
pub open spec fn unexpired<V>(m: Map<Seq<char>, Cached<V>>, now_ms: u64) -> Map<Seq<char>, Cached<V>> {
    Map::new(
        |k: Seq<char>| m.dom().contains(k) && m[k].expires_ms > now_ms,
        |k: Seq<char>| m[k],
    )
}

/// A cache with room for one more entry: a full one loses its expired entries, and all of them where
/// that is not enough.
pub open spec fn with_room<V>(m: Map<Seq<char>, Cached<V>>, now_ms: u64, cap: nat) -> Map<Seq<char>, Cached<V>> {
    if m.dom().len() < cap {
        m
    } else if unexpired(m, now_ms).dom().len() < cap {
        unexpired(m, now_ms)
    } else {
        Map::empty()
    }
}

/// Makes room for one more entry in a cache.
pub fn make_room<V>(cache: &mut Table<String, Cached<V>>, now_ms: u64, cap: usize)
    requires
        old(cache).wf(),
    ensures
        final(cache).wf(),
        final(cache)@ == with_room(old(cache)@, now_ms, cap as nat),
{
    let n: usize = cache.len();
    if n < cap {
        return;
    }
    let ghost before = *cache;
    let mut keep: Vec<bool> = Vec::new();
    let mut i: usize = 0;
    while i < n
        invariant
            n == cache.keys().len(),
            *cache == before,
            before.wf(),
            i <= n,
            keep@.len() == i,
            forall|j: int| 0 <= j < i ==> keep@[j] == (#[trigger] cache.vals()[j].expires_ms > now_ms),
        decreases n - i,
    {
        keep.push(cache.val_at(i).expires_ms > now_ms);
        i = i + 1;
    }
    cache.retain_marked(&keep);
    proof {
        assert forall|k: Seq<char>| #[trigger] cache@.dom().contains(k) <==> unexpired(before@, now_ms).dom().contains(k) by {
            if before@.dom().contains(k) {
                let j = before.keys().index_of(k);
                assert(before.keys().contains(k));
                assert(before.keys()[j] == k);
                lemma_map_of(before.keys(), before.vals(), j);
                assert(keep@[j] == (before.vals()[j].expires_ms > now_ms));
            }
        }
        assert(cache@ =~= unexpired(before@, now_ms));
    }
    if cache.len() >= cap {
        *cache = Table::new();
    }
}

/// A name that was just remembered is found again until it expires, and not afterwards.
pub proof fn law_cache_hit<V>(
    m: Map<Seq<char>, Cached<V>>,
    name: Seq<char>,
    c: Cached<V>,
    cap: nat,
    now_ms: u64,
    later_ms: u64,
)
    ensures
        ({
            let after = with_room(m, now_ms, cap).insert(name, c);
            &&& after.dom().contains(name)
            &&& after[name] == c
            &&& unexpired(after, later_ms).dom().contains(name) <==> c.expires_ms > later_ms
        }),
{
}

/// A cache never grows beyond its bound.
pub proof fn law_cache_bounded<V>(m: Map<Seq<char>, Cached<V>>, name: Seq<char>, c: Cached<V>, cap: nat, now_ms: u64)
    requires
        m.dom().finite(),
        cap > 0,
        m.dom().len() <= cap,
    ensures
        with_room(m, now_ms, cap).insert(name, c).dom().len() <= cap,
{
    let w = with_room(m, now_ms, cap);
    assert(w.dom().subset_of(m.dom()));
    vstd::set_lib::lemma_len_subset(w.dom(), m.dom());
    assert(w.insert(name, c).dom() =~= w.dom().insert(name));
}

/// Making room loses nothing while there is room. A full cache loses what has expired, and only where
/// nothing has it loses all.
pub proof fn law_room_made<V>(m: Map<Seq<char>, Cached<V>>, now_ms: u64, cap: nat, name: Seq<char>)
    ensures
        m.dom().len() < cap ==> with_room(m, now_ms, cap) == m,
        with_room(m, now_ms, cap).dom().contains(name) ==> m.dom().contains(name) && with_room(m, now_ms, cap)[name] == m[name],
        m.dom().contains(name) && m[name].expires_ms > now_ms && unexpired(m, now_ms).dom().len() < cap ==> with_room(
            m,
            now_ms,
            cap,
        ).dom().contains(name),
        m.dom().len() >= cap && m.dom().contains(name) && m[name].expires_ms <= now_ms ==> !with_room(m, now_ms, cap).dom().contains(
            name,
        ),
{
}

} // verus!
