//! Canonical keys of block families: the blocks in sorted order, compared
//! lexicographically, as `Vec<Block>` is ordered.
use vstd::prelude::*;
use crate::types::Block;

verus! {

/// The order of blocks: by source start, then target start, then length.
pub open spec fn block_lt(a: Block, b: Block) -> bool {
    ||| a.i < b.i
    ||| (a.i == b.i && a.j < b.j)
    ||| (a.i == b.i && a.j == b.j && a.len < b.len)
}

/// Lexicographic order on block sequences; a proper prefix is smaller.
pub open spec fn seq_lt(a: Seq<Block>, b: Seq<Block>) -> bool
    decreases a.len(),
{
    if a.len() == 0 {
        b.len() > 0
    } else if b.len() == 0 {
        false
    } else if block_lt(a[0], b[0]) {
        true
    } else if a[0] == b[0] {
        seq_lt(a.drop_first(), b.drop_first())
    } else {
        false
    }
}

/// Insert `x` before the first element that is greater than it.
pub open spec fn insert_sorted(s: Seq<Block>, x: Block) -> Seq<Block>
    decreases s.len(),
{
    if s.len() == 0 {
        seq![x]
    } else if block_lt(x, s[0]) {
        seq![x] + s
    } else {
        seq![s[0]] + insert_sorted(s.drop_first(), x)
    }
}

/// Insertion sort of a block sequence: the canonical key of a family.
pub open spec fn sort_blocks(s: Seq<Block>) -> Seq<Block>
    decreases s.len(),
{
    if s.len() == 0 {
        s
    } else {
        insert_sorted(sort_blocks(s.drop_last()), s.last())
    }
}

/// Inserting one element adds one to the length.
pub proof fn lemma_insert_sorted_len(s: Seq<Block>, x: Block)
    ensures
        insert_sorted(s, x).len() == s.len() + 1,
    decreases s.len(),
{
    if s.len() > 0 && !block_lt(x, s[0]) {
        lemma_insert_sorted_len(s.drop_first(), x);
    }
}

/// Sorting keeps the length.
pub proof fn lemma_sort_len(s: Seq<Block>)
    ensures
        sort_blocks(s).len() == s.len(),
    decreases s.len(),
{
    if s.len() > 0 {
        lemma_sort_len(s.drop_last());
        lemma_insert_sorted_len(sort_blocks(s.drop_last()), s.last());
    }
}

/// `block_lt` is a strict total order.
pub proof fn lemma_block_lt_total(a: Block, b: Block)
    ensures
        block_lt(a, b) || block_lt(b, a) || a == b,
        !(block_lt(a, b) && block_lt(b, a)),
        !block_lt(a, a),
{
}

/// The lexicographic order is irreflexive.
pub proof fn lemma_seq_lt_irreflexive(a: Seq<Block>)
    ensures
        !seq_lt(a, a),
    decreases a.len(),
{
    if a.len() > 0 {
        lemma_seq_lt_irreflexive(a.drop_first());
    }
}

/// The lexicographic order is transitive.
pub proof fn lemma_seq_lt_transitive(a: Seq<Block>, b: Seq<Block>, c: Seq<Block>)
    requires
        seq_lt(a, b),
        seq_lt(b, c),
    ensures
        seq_lt(a, c),
    decreases a.len(),
{
    if a.len() > 0 && b.len() > 0 && c.len() > 0 {
        if a[0] == b[0] && b[0] == c[0] {
            lemma_seq_lt_transitive(a.drop_first(), b.drop_first(), c.drop_first());
        }
    }
}

/// The lexicographic order is total.
pub proof fn lemma_seq_lt_total(a: Seq<Block>, b: Seq<Block>)
    ensures
        seq_lt(a, b) || seq_lt(b, a) || a == b,
    decreases a.len(),
{
    if a.len() == 0 && b.len() == 0 {
        assert(a =~= b);
    } else if a.len() > 0 && b.len() > 0 {
        lemma_block_lt_total(a[0], b[0]);
        if a[0] == b[0] {
            lemma_seq_lt_total(a.drop_first(), b.drop_first());
            if a.drop_first() == b.drop_first() {
                assert(a =~= seq![a[0]] + a.drop_first());
                assert(b =~= seq![b[0]] + b.drop_first());
            }
        }
    }
}

/// Exec comparison of two blocks in the block order.
pub fn block_less(a: &Block, b: &Block) -> (r: bool)
    ensures
        r == block_lt(*a, *b),
{
    a.i < b.i || (a.i == b.i && (a.j < b.j || (a.j == b.j && a.len < b.len)))
}

/// Lexicographic comparison of two keys: `a < b` as `Vec<Block>` orders them.
pub fn key_less(a: &Vec<Block>, b: &Vec<Block>) -> (r: bool)
    ensures
        r == seq_lt(a@, b@),
{
    let mut p: usize = 0;
    assert(a@.skip(0) =~= a@);
    assert(b@.skip(0) =~= b@);
    while p < a.len() && p < b.len()
        invariant
            p <= a.len(),
            p <= b.len(),
            forall|q: int| 0 <= q < p ==> a@[q] == b@[q],
            seq_lt(a@, b@) == seq_lt(a@.skip(p as int), b@.skip(p as int)),
        decreases a.len() - p,
    {
        if block_less(&a[p], &b[p]) {
            assert(a@.skip(p as int)[0] == a@[p as int]);
            assert(b@.skip(p as int)[0] == b@[p as int]);
            return true;
        }
        if a[p] != b[p] {
            assert(a@.skip(p as int)[0] == a@[p as int]);
            assert(b@.skip(p as int)[0] == b@[p as int]);
            return false;
        }
        assert(a@.skip(p as int).drop_first() =~= a@.skip(p + 1));
        assert(b@.skip(p as int).drop_first() =~= b@.skip(p + 1));
        p = p + 1;
    }
    assert(a@.skip(p as int).len() == a.len() - p);
    assert(b@.skip(p as int).len() == b.len() - p);
    p == a.len() && p < b.len()
}

/// Inserts `x` into `v` before the first greater element.
fn insert_into_sorted(v: &mut Vec<Block>, x: Block)
    ensures
        final(v)@ == insert_sorted(old(v)@, x),
{
    let ghost s = v@;
    let mut p: usize = 0;
    assert(s.skip(0) =~= s);
    assert(s.take(0) + s =~= s);
    while p < v.len() && !block_less(&x, &v[p])
        invariant
            p <= v.len(),
            v@ == s,
            insert_sorted(s, x) == s.take(p as int) + insert_sorted(s.skip(p as int), x),
        decreases v.len() - p,
    {
        proof {
            let t = s.skip(p as int);
            assert(t[0] == s[p as int]);
            assert(t.drop_first() =~= s.skip(p + 1));
            assert(s.take(p as int) + seq![s[p as int]] =~= s.take(p + 1));
        }
        p = p + 1;
    }
    proof {
        if p < s.len() {
            assert(s.skip(p as int)[0] == s[p as int]);
        } else {
            assert(s.skip(p as int) =~= Seq::<Block>::empty());
        }
        assert(s.take(p as int) + (seq![x] + s.skip(p as int)) =~= s.insert(p as int, x));
    }
    v.insert(p, x);
}

/// The canonical key of a block family: its blocks in sorted order.
pub fn sorted_key(blocks: &Vec<Block>) -> (r: Vec<Block>)
    ensures
        r@ == sort_blocks(blocks@),
{
    let mut r: Vec<Block> = Vec::new();
    let mut k: usize = 0;
    while k < blocks.len()
        invariant
            k <= blocks.len(),
            r@ == sort_blocks(blocks@.take(k as int)),
        decreases blocks.len() - k,
    {
        proof {
            let t = blocks@.take(k + 1);
            assert(t.drop_last() =~= blocks@.take(k as int));
            assert(t.last() == blocks@[k as int]);
        }
        insert_into_sorted(&mut r, blocks[k]);
        k = k + 1;
    }
    proof {
        assert(blocks@.take(k as int) =~= blocks@);
    }
    r
}

// ---------------------------------------------------------------------------
// A numeric rank of keys of bounded length, used to show that descent ends.

/// Number of values of a machine word.
pub open spec fn word_range() -> nat {
    usize::MAX as nat + 1
}

/// Position of a block in the block order, as a number below `word_range()^3`.
pub open spec fn block_ord(b: Block) -> nat {
    ((b.i as nat) * word_range() + b.j as nat) * word_range() + b.len as nat
}

/// Base of the numeral that encodes a key: one more than the number of block positions.
pub open spec fn key_base() -> nat {
    word_range() * word_range() * word_range() + 1
}

/// `b` to the power `e`.
pub open spec fn power(b: nat, e: nat) -> nat
    decreases e,
{
    if e == 0 {
        1
    } else {
        b * power(b, (e - 1) as nat)
    }
}

/// The key read as an `l`-digit numeral in base `key_base()`: digit `p` is one more than
/// the position of the `p`-th block, or zero past the end of the key.
pub open spec fn key_rank(s: Seq<Block>, l: nat) -> nat
    decreases l,
{
    if l == 0 || s.len() == 0 {
        0
    } else {
        (block_ord(s[0]) + 1) * power(key_base(), (l - 1) as nat) + key_rank(s.drop_first(), (l - 1) as nat)
    }
}

proof fn lemma_power_pos(b: nat, e: nat)
    requires
        b >= 1,
    ensures
        power(b, e) >= 1,
    decreases e,
{
    if e > 0 {
        lemma_power_pos(b, (e - 1) as nat);
        assert(b * power(b, (e - 1) as nat) >= 1) by (nonlinear_arith)
            requires
                b >= 1,
                power(b, (e - 1) as nat) >= 1,
        ;
    }
}

proof fn lemma_block_ord_bound(b: Block)
    ensures
        block_ord(b) + 1 < key_base(),
{
    let w = word_range();
    let (i, j, l) = (b.i as nat, b.j as nat, b.len as nat);
    assert(((i * w + j) * w + l) + 1 < w * w * w + 1) by (nonlinear_arith)
        requires
            i < w,
            j < w,
            l < w,
    ;
}

proof fn lemma_block_ord_lt(a: Block, b: Block)
    requires
        block_lt(a, b),
    ensures
        block_ord(a) < block_ord(b),
{
    let w = word_range();
    let (ai, aj, al) = (a.i as nat, a.j as nat, a.len as nat);
    let (bi, bj, bl) = (b.i as nat, b.j as nat, b.len as nat);
    if ai < bi {
        assert((ai * w + aj) * w + al < (bi * w + bj) * w + bl) by (nonlinear_arith)
            requires
                ai < bi,
                aj < w,
                al < w,
        ;
    } else if aj < bj {
        assert((ai * w + aj) * w + al < (bi * w + bj) * w + bl) by (nonlinear_arith)
            requires
                ai == bi,
                aj < bj,
                al < w,
        ;
    }
}

/// The rank of a key is an `l`-digit numeral.
pub proof fn lemma_key_rank_bound(s: Seq<Block>, l: nat)
    ensures
        key_rank(s, l) < power(key_base(), l),
    decreases l,
{
    if l == 0 || s.len() == 0 {
        lemma_power_pos(key_base(), l);
    } else {
        let p = power(key_base(), (l - 1) as nat);
        let d = block_ord(s[0]) + 1;
        let r = key_rank(s.drop_first(), (l - 1) as nat);
        lemma_key_rank_bound(s.drop_first(), (l - 1) as nat);
        lemma_block_ord_bound(s[0]);
        assert(d * p + r < key_base() * p) by (nonlinear_arith)
            requires
                r < p,
                d < key_base(),
        ;
    }
}

/// On keys of at most `l` blocks, the lexicographic order is the order of their ranks.
pub proof fn lemma_key_rank_lt(a: Seq<Block>, b: Seq<Block>, l: nat)
    requires
        seq_lt(a, b),
        a.len() <= l,
        b.len() <= l,
    ensures
        key_rank(a, l) < key_rank(b, l),
    decreases l,
{
    let p = power(key_base(), (l - 1) as nat);
    lemma_power_pos(key_base(), (l - 1) as nat);
    let db = block_ord(b[0]) + 1;
    let rb = key_rank(b.drop_first(), (l - 1) as nat);
    if a.len() == 0 {
        assert(db * p + rb >= 1) by (nonlinear_arith)
            requires
                db >= 1,
                p >= 1,
        ;
    } else {
        let da = block_ord(a[0]) + 1;
        let ra = key_rank(a.drop_first(), (l - 1) as nat);
        if block_lt(a[0], b[0]) {
            lemma_block_ord_lt(a[0], b[0]);
            lemma_key_rank_bound(a.drop_first(), (l - 1) as nat);
            assert(da * p + ra < db * p + rb) by (nonlinear_arith)
                requires
                    ra < p,
                    da < db,
            ;
        } else {
            lemma_key_rank_lt(a.drop_first(), b.drop_first(), (l - 1) as nat);
        }
    }
}

} // verus!
