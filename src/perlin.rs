use crate::utility::random_int_range;
use vstd::prelude::*;

verus! {

/// Number of lattice points along each axis of the noise tables.
pub const POINT_COUNT: usize = 256;

/// `0, 1, ..., n - 1`.
pub open spec fn identity(n: nat) -> Seq<i32> {
    Seq::new(n, |i: int| i as i32)
}

/// `p` holds each of `0, 1, ..., POINT_COUNT - 1` exactly once.
pub open spec fn is_perm_table(p: Seq<i32>) -> bool {
    p.to_multiset() == identity(POINT_COUNT as nat).to_multiset()
}

/// Shuffles the first `n` entries of `p` in place (Fisher-Yates, from the back),
/// so that `p` keeps its entries, each as often as before.
pub fn permute(p: &mut Vec<i32>, n: usize)
    requires
        n <= old(p).len(),
        n <= i32::MAX,
    ensures
        final(p).len() == old(p).len(),
        final(p)@.to_multiset() == old(p)@.to_multiset(),
        final(p)@.subrange(n as int, final(p).len() as int) == old(p)@.subrange(
            n as int,
            old(p).len() as int,
        ),
{
    let ghost start = p@;
    let mut i: usize = n;
    while i > 1
        invariant
            i <= n <= p.len(),
            n <= i32::MAX,
            p.len() == start.len(),
            p@.to_multiset() == start.to_multiset(),
            p@.subrange(n as int, p.len() as int) == start.subrange(n as int, start.len() as int),
        decreases i,
    {
        i = i - 1;
        let target = random_int_range(0, i as i32) as usize;
        let a = p[i];
        let b = p[target];
        proof {
            vstd::seq_lib::to_multiset_update(p@, i as int, b);
            vstd::seq_lib::to_multiset_update(p@.update(i as int, b), target as int, a);
            vstd::seq_lib::to_multiset_contains(p@, a);
            vstd::seq_lib::to_multiset_contains(p@, b);
        }
        let ghost before = p@;
        p.set(i, b);
        p.set(target, a);
        proof {
            assert(p@.to_multiset() =~= before.to_multiset());
            assert(p@.subrange(n as int, p.len() as int) =~= before.subrange(n as int, p.len() as int));
        }
    }
}

/// A random ordering of `0, 1, ..., POINT_COUNT - 1`.
pub fn perlin_generate_perm() -> (p: Vec<i32>)
    ensures
        p.len() == POINT_COUNT,
        is_perm_table(p@),
{
    let mut p: Vec<i32> = Vec::new();
    let mut i: usize = 0;
    while i < POINT_COUNT
        invariant
            i <= POINT_COUNT,
            p@ =~= identity(i as nat),
        decreases POINT_COUNT - i,
    {
        p.push(i as i32);
        i = i + 1;
    }
    permute(&mut p, POINT_COUNT);
    p
}

/// Every entry of a permutation table is one of `0, 1, ..., POINT_COUNT - 1`.
pub proof fn lemma_perm_table_range(p: Seq<i32>)
    requires
        is_perm_table(p),
    ensures
        forall|q: int| 0 <= q < p.len() ==> 0 <= #[trigger] p[q] < POINT_COUNT,
{
    assert forall|q: int| 0 <= q < p.len() implies 0 <= #[trigger] p[q] < POINT_COUNT by {
        let id = identity(POINT_COUNT as nat);
        vstd::seq_lib::to_multiset_contains(p, p[q]);
        vstd::seq_lib::to_multiset_contains(id, p[q]);
        assert(p.contains(p[q]));
        let w = choose|w: int| 0 <= w < id.len() && id[w] == p[q];
        assert(id[w] == w as i32);
    }
}

/// The three permutation tables that hash an integer lattice point of Perlin
/// noise to one of `POINT_COUNT` gradient slots.
pub struct PermTables {
    perm_x: Vec<i32>,
    perm_y: Vec<i32>,
    perm_z: Vec<i32>,
}

impl PermTables {
    pub closed spec fn table_x(&self) -> Seq<i32> {
        self.perm_x@
    }

    pub closed spec fn table_y(&self) -> Seq<i32> {
        self.perm_y@
    }

    pub closed spec fn table_z(&self) -> Seq<i32> {
        self.perm_z@
    }

    pub open spec fn wf(&self) -> bool {
        &&& is_perm_table(self.table_x())
        &&& is_perm_table(self.table_y())
        &&& is_perm_table(self.table_z())
    }

    /// The slot of lattice point `(i, j, k)`: the three tables, each read at
    /// its coordinate taken modulo `POINT_COUNT`, combined by exclusive or.
    pub open spec fn slot(&self, i: int, j: int, k: int) -> int {
        let n = POINT_COUNT as int;
        (self.table_x()[i % n] ^ self.table_y()[j % n] ^ self.table_z()[k % n]) as int
    }

    /// Three independent random tables.
    pub fn new() -> (r: PermTables)
        ensures
            r.wf(),
    {
        let perm_x = perlin_generate_perm();
        let perm_y = perlin_generate_perm();
        let perm_z = perlin_generate_perm();
        PermTables { perm_x, perm_y, perm_z }
    }

    /// The gradient slot of lattice point `(i, j, k)`.
    pub fn hash(&self, i: i32, j: i32, k: i32) -> (r: usize)
        requires
            self.wf(),
        ensures
            r == self.slot(i as int, j as int, k as int),
            r < POINT_COUNT,
    {
        proof {
            vstd::seq_lib::to_multiset_len(self.perm_x@);
            vstd::seq_lib::to_multiset_len(self.perm_y@);
            vstd::seq_lib::to_multiset_len(self.perm_z@);
            vstd::seq_lib::to_multiset_len(identity(POINT_COUNT as nat));
            lemma_perm_table_range(self.perm_x@);
            lemma_perm_table_range(self.perm_y@);
            lemma_perm_table_range(self.perm_z@);
        }
        let a = self.perm_x[wrap_index(i)];
        let b = self.perm_y[wrap_index(j)];
        let c = self.perm_z[wrap_index(k)];
        let h = a ^ b ^ c;
        assert(0 <= h < 256) by (bit_vector)
            requires
                0 <= a < 256,
                0 <= b < 256,
                0 <= c < 256,
                h == a ^ b ^ c,
        ;
        h as usize
    }
}

/// `i` modulo `POINT_COUNT`, never negative.
fn wrap_index(i: i32) -> (r: usize)
    ensures
        r == i as int % POINT_COUNT as int,
        r < POINT_COUNT,
{
    match i.checked_rem_euclid(256) {
        Some(m) => m as usize,
        None => 0,
    }
}

} // verus!
