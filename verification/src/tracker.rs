//! The interpreter's cycle-detection scratch and the search's dedup
//! filter.  Both are hash sets keyed by an integer encoding of a machine
//! configuration, hashed with ahash; the encoding itself is verified to
//! be injective, so a key collision is a genuine state revisit.

use vstd::prelude::*;

verus! {

use vstd::arithmetic::div_mod::lemma_fundamental_div_mod_converse;

/// `256^n`.
pub open spec fn pow256(n: nat) -> int
    decreases n,
{
    if n == 0 {
        1
    } else {
        256 * pow256((n - 1) as nat)
    }
}

/// The tape read as one base-256 number, first cell most significant.
pub open spec fn tape_val(t: Seq<u8>) -> int
    decreases t.len(),
{
    if t.len() == 0 {
        0
    } else {
        tape_val(t.drop_last()) * 256 + t.last()
    }
}

/// The integer encoding of a (tape, head) configuration.
pub open spec fn state_key_spec(t: Seq<u8>, head: int) -> int {
    head * pow256(t.len()) + tape_val(t)
}

pub proof fn lemma_pow256_15()
    ensures
        pow256(15) == 0x1000000000000000000000000000000,
{
    reveal_with_fuel(pow256, 16);
}

pub proof fn lemma_pow256_pos(n: nat)
    ensures
        pow256(n) >= 1,
    decreases n,
{
    if n > 0 {
        lemma_pow256_pos((n - 1) as nat);
    }
}

pub proof fn lemma_tape_val_bounds(t: Seq<u8>)
    ensures
        0 <= tape_val(t) < pow256(t.len()),
    decreases t.len(),
{
    if t.len() > 0 {
        lemma_tape_val_bounds(t.drop_last());
    }
}

proof fn lemma_tape_val_injective(t1: Seq<u8>, t2: Seq<u8>)
    requires
        t1.len() == t2.len(),
        tape_val(t1) == tape_val(t2),
    ensures
        t1 == t2,
    decreases t1.len(),
{
    if t1.len() == 0 {
        assert(t1 =~= t2);
    } else {
        lemma_tape_val_bounds(t1.drop_last());
        lemma_tape_val_bounds(t2.drop_last());
        lemma_fundamental_div_mod_converse(
            tape_val(t1),
            256,
            tape_val(t1.drop_last()),
            t1.last() as int,
        );
        lemma_fundamental_div_mod_converse(
            tape_val(t2),
            256,
            tape_val(t2.drop_last()),
            t2.last() as int,
        );
        assert(t1.last() as int == t2.last() as int);
        lemma_tape_val_injective(t1.drop_last(), t2.drop_last());
        assert forall|i: int| 0 <= i < t1.len() implies t1[i] == t2[i] by {
            if i < t1.len() - 1 {
                assert(t1[i] == t1.drop_last()[i]);
                assert(t2[i] == t2.drop_last()[i]);
            }
        }
        assert(t1 =~= t2);
    }
}

/// The configuration encoding is injective: equal keys of equal-width
/// tapes come from equal tapes and equal heads.
pub proof fn lemma_state_key_injective(t1: Seq<u8>, h1: int, t2: Seq<u8>, h2: int)
    requires
        t1.len() == t2.len(),
        0 <= h1,
        0 <= h2,
        state_key_spec(t1, h1) == state_key_spec(t2, h2),
    ensures
        t1 == t2,
        h1 == h2,
{
    lemma_tape_val_bounds(t1);
    lemma_tape_val_bounds(t2);
    lemma_pow256_pos(t1.len());
    lemma_fundamental_div_mod_converse(
        state_key_spec(t1, h1),
        pow256(t1.len()),
        h1,
        tape_val(t1),
    );
    lemma_fundamental_div_mod_converse(
        state_key_spec(t2, h2),
        pow256(t2.len()),
        h2,
        tape_val(t2),
    );
    lemma_tape_val_injective(t1, t2);
}

/// Compute the configuration key of a tape and head position.
pub fn state_key(tape: &Vec<u8>, head: u8) -> (key: u128)
    requires
        tape@.len() <= 15,
    ensures
        key == state_key_spec(tape@, head as int),
{
    proof {
        lemma_pow256_15();
    }
    let mut acc: u128 = head as u128;
    let n = tape.len();
    proof {
        assert(tape@.take(0) =~= Seq::<u8>::empty());
        assert(pow256(0) == 1);
        assert(tape_val(tape@.take(0)) == 0);
        assert(state_key_spec(tape@.take(0), head as int) == head as int);
    }
    for i in 0..n
        invariant
            n == tape@.len() <= 15,
            acc == state_key_spec(tape@.take(i as int), head as int),
            acc < (head + 1) * pow256(i as nat),
    {
        let ghost pre = tape@.take(i as int);
        proof {
            lemma_tape_val_bounds(pre);
            lemma_pow256_pos(i as nat);
            lemma_pow256_pos(14);
            lemma_pow256_monotone(i as nat, 14);
            lemma_pow256_15();
            assert((head + 1) * pow256(i as nat) <= 256 * pow256(14)) by (nonlinear_arith)
                requires
                    head < 256,
                    pow256(i as nat) <= pow256(14),
                    pow256(i as nat) >= 1,
                    pow256(14) >= 1,
            ;
            assert(256 * pow256(14) == pow256(15));
            assert(acc < pow256(15));
        }
        acc = acc * 256 + (tape[i] as u128);
        proof {
            assert(tape@.take(i + 1).drop_last() =~= pre);
            assert(tape@.take(i + 1).last() == tape@[i as int]);
            assert(tape_val(tape@.take(i + 1)) == tape_val(pre) * 256 + tape@[i as int]);
            assert((head as int) * pow256((i + 1) as nat) == (head as int) * pow256(i as nat) * 256)
                by (nonlinear_arith)
                requires
                    pow256((i + 1) as nat) == 256 * pow256(i as nat),
            ;
            assert(((head as int) * pow256(i as nat) + tape_val(pre)) * 256 == (head as int)
                * pow256(i as nat) * 256 + tape_val(pre) * 256) by (nonlinear_arith);
            lemma_tape_val_bounds(tape@.take(i + 1));
            assert((head + 1) * pow256((i + 1) as nat) == (head as int) * pow256((i + 1) as nat)
                + pow256((i + 1) as nat)) by (nonlinear_arith);
            assert(acc < (head + 1) * pow256((i + 1) as nat)) by (nonlinear_arith)
                requires
                    acc == (head as int) * pow256((i + 1) as nat) + tape_val(tape@.take(i + 1)),
                    tape_val(tape@.take(i + 1)) < pow256((i + 1) as nat),
                    (head + 1) * pow256((i + 1) as nat) == (head as int) * pow256((i + 1) as nat)
                        + pow256((i + 1) as nat),
            ;
        }
    }
    proof {
        assert(tape@.take(n as int) =~= tape@);
    }
    acc
}

pub proof fn lemma_pow256_monotone(a: nat, b: nat)
    requires
        a <= b,
    ensures
        pow256(a) <= pow256(b),
    decreases b,
{
    if a < b {
        lemma_pow256_monotone(a, (b - 1) as nat);
        lemma_pow256_pos((b - 1) as nat);
    }
}

/// Strict upper bound of every configuration key of a tape of width at
/// most 15: `16 * 256^15`.
pub open spec fn key_bound() -> int {
    0x10000000000000000000000000000000
}

/// Configuration keys of tapes of width at most 15 stay below
/// `key_bound()`.
pub proof fn lemma_key_bound(t: Seq<u8>, head: int)
    requires
        t.len() <= 15,
        0 <= head < 16,
    ensures
        0 <= state_key_spec(t, head) < key_bound(),
{
    lemma_tape_val_bounds(t);
    lemma_pow256_pos(t.len());
    lemma_pow256_monotone(t.len(), 15);
    lemma_pow256_15();
    assert(head * pow256(t.len()) <= 15 * pow256(15)) by (nonlinear_arith)
        requires
            0 <= head < 16,
            1 <= pow256(t.len()) <= pow256(15),
    ;
    assert(head * pow256(t.len()) >= 0) by (nonlinear_arith)
        requires
            0 <= head,
            1 <= pow256(t.len()),
    ;
}

/// A (key, position) pair folded into one integer, injectively for keys
/// below `key_bound()`.
pub open spec fn pair_index(k: u128, p: usize) -> int {
    p * key_bound() + k
}

pub proof fn lemma_pair_index_injective(k1: u128, p1: usize, k2: u128, p2: usize)
    requires
        k1 < key_bound(),
        k2 < key_bound(),
        pair_index(k1, p1) == pair_index(k2, p2),
    ensures
        k1 == k2,
        p1 == p2,
{
    lemma_fundamental_div_mod_converse(pair_index(k1, p1), key_bound(), p1 as int, k1 as int);
    lemma_fundamental_div_mod_converse(pair_index(k2, p2), key_bound(), p2 as int, k2 as int);
}

/// A set of (configuration key, position) pairs, backed by a hash set
/// with the ahash hasher.  The interpreter uses one as its visited-state
/// store, pairing each configuration key with the program counter it was
/// seen at; the search driver uses another as its dedup filter, pairing
/// each configuration key with the output cursor reached.
#[verifier::external_body]
pub struct ConfigSet {
    inner: std::collections::HashSet<(u128, usize), ahash::RandomState>,
}

/// The pairs a `ConfigSet` holds.
pub uninterp spec fn config_set_view(f: ConfigSet) -> Set<(u128, usize)>;

impl ConfigSet {
    /// Relies on `HashSet::with_capacity_and_hasher`: the new set is empty.
    #[verifier::external_body]
    pub fn new() -> (f: ConfigSet)
        ensures
            config_set_view(f) == Set::<(u128, usize)>::empty(),
    {
        ConfigSet {
            inner: std::collections::HashSet::with_capacity_and_hasher(
                1024,
                ahash::RandomState::new(),
            ),
        }
    }

    /// Relies on `HashSet::clear`: removes all elements, keeping capacity.
    #[verifier::external_body]
    pub fn clear(&mut self)
        ensures
            config_set_view(*final(self)) == Set::<(u128, usize)>::empty(),
    {
        self.inner.clear();
    }

    /// Relies on `HashSet::contains`: membership of the pair.
    #[verifier::external_body]
    pub fn contains(&self, key: u128, pos: usize) -> (r: bool)
        ensures
            r == config_set_view(*self).contains((key, pos)),
    {
        self.inner.contains(&(key, pos))
    }

    /// Relies on `HashSet::insert`: adds the pair to the set.
    #[verifier::external_body]
    pub fn insert(&mut self, key: u128, pos: usize)
        ensures
            config_set_view(*final(self)) == config_set_view(*old(self)).insert((key, pos)),
    {
        self.inner.insert((key, pos));
    }
}

} // verus!
