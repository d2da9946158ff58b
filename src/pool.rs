//! The pool registry: pool IDs and the root directories they resolve to.

use vstd::prelude::*;

verus! {

/// The pools known to the process, in the order they were added.
pub struct PoolRegistry {
    pools: Vec<(u64, String)>,
}

/// The root of the first pool registered under `id`.
pub open spec fn pool_root_of(s: Seq<(u64, Seq<char>)>, id: u64) -> Option<Seq<char>>
    decreases s.len(),
{
    if s.len() == 0 {
        None
    } else if s[0].0 == id {
        Some(s[0].1)
    } else {
        pool_root_of(s.drop_first(), id)
    }
}

impl View for PoolRegistry {
    type V = Seq<(u64, Seq<char>)>;

    closed spec fn view(&self) -> Seq<(u64, Seq<char>)> {
        self.pools@.map_values(|p: (u64, String)| (p.0, p.1@))
    }
}

proof fn lemma_pool_root_push(s: Seq<(u64, Seq<char>)>, p: (u64, Seq<char>), id: u64)
    ensures
        pool_root_of(s.push(p), id) == match pool_root_of(s, id) {
            Some(r) => Some(r),
            None => if p.0 == id {
                Some(p.1)
            } else {
                None
            },
        },
    decreases s.len(),
{
    if s.len() > 0 {
        assert(s.push(p).drop_first() =~= s.drop_first().push(p));
        lemma_pool_root_push(s.drop_first(), p, id);
        assert(s.push(p)[0] == s[0]);
    } else {
        assert(s.push(p).drop_first() =~= s);
        assert(s.push(p)[0] == p);
    }
}

impl PoolRegistry {
    /// A registry without pools.
    pub fn new() -> (r: Self)
        ensures
            r@ == Seq::<(u64, Seq<char>)>::empty(),
    {
        let r = PoolRegistry { pools: Vec::new() };
        assert(r@ =~= Seq::<(u64, Seq<char>)>::empty());
        r
    }

    /// Registers the pool `id` with root directory `path`; an ID registered
    /// earlier keeps its first root.
    pub fn add(&mut self, id: u64, path: String)
        ensures
            final(self)@ == old(self)@.push((id, path@)),
            forall|q: u64| #[trigger] pool_root_of(final(self)@, q) == match pool_root_of(old(self)@, q) {
                Some(r) => Some(r),
                None => if q == id {
                    Some(path@)
                } else {
                    None
                },
            },
    {
        let ghost s = self@;
        let ghost p = (id, path@);
        self.pools.push((id, path));
        assert(self@ =~= s.push(p));
        assert forall|q: u64| #[trigger] pool_root_of(self@, q) == match pool_root_of(s, q) {
            Some(r) => Some(r),
            None => if q == id {
                Some(p.1)
            } else {
                None
            },
        } by {
            lemma_pool_root_push(s, p, q);
        }
    }
}

/// The root directory of the pool `id`, if it is registered.
pub fn get_pool_path_by_id(pools: &PoolRegistry, id: u64) -> (r: Option<String>)
    ensures
        match pool_root_of(pools@, id) {
            Some(root) => r matches Some(p) && p@ == root,
            None => r is None,
        },
{
    let ghost s = pools@;
    let mut i: usize = 0;
    assert(s.subrange(0, s.len() as int) == s);
    while i < pools.pools.len()
        invariant
            s == pools@,
            i <= s.len(),
            pool_root_of(s, id) == pool_root_of(s.subrange(i as int, s.len() as int), id),
        decreases s.len() - i,
    {
        let ghost rest = s.subrange(i as int, s.len() as int);
        assert(rest.drop_first() == s.subrange(i + 1, s.len() as int));
        assert(rest[0] == (pools.pools@[i as int].0, pools.pools@[i as int].1@));
        if pools.pools[i].0 == id {
            return Some(pools.pools[i].1.clone());
        }
        i = i + 1;
    }
    None
}

} // verus!
