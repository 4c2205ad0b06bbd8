//! Sorting report blocks by key: what it means, and that it has one outcome.

use vstd::prelude::*;
use crate::order::key_bytes;
use crate::order::key_le;
use crate::order::lemma_key_le_antisym;
use crate::order::lemma_lex_le_refl;
use crate::order::lemma_lex_le_total;
use crate::order::lemma_lex_le_trans;
use crate::order::str_le;

verus! {

/// A block of the report as the contracts see it: its sort key and its lines.
pub type BlockView = (Seq<char>, Seq<Seq<char>>);

/// The keys of `blocks` never go down, in byte-wise order.
pub open spec fn keys_ascending(blocks: Seq<BlockView>) -> bool {
    forall|i: int, j: int| 0 <= i <= j < blocks.len() ==> key_le(blocks[i].0, blocks[j].0)
}

/// The blocks of `blocks` whose key is `key`, in the order they stand in.
pub open spec fn with_key(blocks: Seq<BlockView>, key: Seq<char>) -> Seq<BlockView>
    decreases blocks.len(),
{
    if blocks.len() == 0 {
        Seq::empty()
    } else {
        let rest = with_key(blocks.drop_last(), key);
        if blocks.last().0 == key {
            rest.push(blocks.last())
        } else {
            rest
        }
    }
}

/// `output` is `input` sorted by key: its keys never go down, and the blocks of
/// any one key are those of `input`, in the order `input` had them.
pub open spec fn sorted_from(input: Seq<BlockView>, output: Seq<BlockView>) -> bool {
    &&& keys_ascending(output)
    &&& forall|key: Seq<char>| #[trigger] with_key(output, key) == with_key(input, key)
}

/// Picking out one key commutes with concatenation.
pub proof fn lemma_with_key_concat(a: Seq<BlockView>, b: Seq<BlockView>, key: Seq<char>)
    ensures
        with_key(a + b, key) == with_key(a, key) + with_key(b, key),
    decreases b.len(),
{
    if b.len() == 0 {
        assert(a + b =~= a);
        assert(with_key(a, key) + with_key(b, key) =~= with_key(a, key));
    } else {
        lemma_with_key_concat(a, b.drop_last(), key);
        assert((a + b).drop_last() =~= a + b.drop_last());
        assert((a + b).last() == b.last());
        assert(with_key(a + b, key) =~= with_key(a, key) + with_key(b, key));
    }
}

/// Picking a key out of a single block gives that block or nothing.
pub proof fn lemma_with_key_single(b: BlockView, key: Seq<char>)
    ensures
        with_key(seq![b], key) == if b.0 == key {
            seq![b]
        } else {
            Seq::<BlockView>::empty()
        },
{
    let one = seq![b];
    assert(one.drop_last() =~= Seq::<BlockView>::empty());
    assert(with_key(one.drop_last(), key) =~= Seq::<BlockView>::empty());
    assert(one.last() == b);
    if b.0 == key {
        assert(with_key(one, key) =~= seq![b]);
    }
}

/// Where no block has the key, picking it out leaves nothing.
pub proof fn lemma_with_key_absent(a: Seq<BlockView>, key: Seq<char>)
    requires
        forall|i: int| 0 <= i < a.len() ==> a[i].0 != key,
    ensures
        with_key(a, key) == Seq::<BlockView>::empty(),
    decreases a.len(),
{
    if a.len() > 0 {
        lemma_with_key_absent(a.drop_last(), key);
    }
}

/// Every block picked out for a key stands in the sequence and has that key.
pub proof fn lemma_with_key_members(a: Seq<BlockView>, key: Seq<char>)
    ensures
        forall|i: int|
            0 <= i < with_key(a, key).len() ==> (#[trigger] with_key(a, key)[i]).0 == key && a.contains(
                with_key(a, key)[i],
            ),
        forall|i: int| 0 <= i < a.len() && a[i].0 == key ==> with_key(a, key).contains(#[trigger] a[i]),
    decreases a.len(),
{
    if a.len() > 0 {
        let front = a.drop_last();
        lemma_with_key_members(front, key);
        assert forall|i: int| 0 <= i < with_key(a, key).len() implies (#[trigger] with_key(a, key)[i]).0
            == key && a.contains(with_key(a, key)[i]) by {
            if i < with_key(front, key).len() {
                let x = with_key(front, key)[i];
                assert(front.contains(x));
                let j = choose|j: int| 0 <= j < front.len() && front[j] == x;
                assert(a[j] == x);
            } else {
                assert(a[a.len() - 1] == a.last());
            }
        }
        assert forall|i: int| 0 <= i < a.len() && a[i].0 == key implies with_key(a, key).contains(
            #[trigger] a[i],
        ) by {
            if i < a.len() - 1 {
                assert(front[i] == a[i]);
                let j = choose|j: int| 0 <= j < with_key(front, key).len() && with_key(front, key)[j]
                    == a[i];
                assert(with_key(a, key)[j] == a[i]);
            } else {
                assert(with_key(a, key)[with_key(a, key).len() - 1] == a[i]);
            }
        }
    }
}

/// Two ascending arrangements that agree on the blocks of every key are the
/// same arrangement.
pub proof fn lemma_same_groups_equal(a: Seq<BlockView>, b: Seq<BlockView>)
    requires
        keys_ascending(a),
        keys_ascending(b),
        forall|key: Seq<char>| #[trigger] with_key(a, key) == with_key(b, key),
    ensures
        a == b,
    decreases a.len(),
{
    if a.len() == 0 {
        if b.len() > 0 {
            lemma_with_key_members(b, b[0].0);
            assert(with_key(b, b[0].0).contains(b[0]));
            assert(with_key(a, b[0].0) == with_key(b, b[0].0));
        }
        assert(a =~= b);
    } else {
        let x = a.last();
        lemma_with_key_members(a, x.0);
        lemma_with_key_members(b, x.0);
        assert(with_key(a, x.0) == with_key(b, x.0));
        assert(with_key(a, x.0).last() == x);
        assert(b.len() > 0) by {
            let g = with_key(b, x.0);
            assert(b.contains(g[g.len() - 1]));
        }
        let y = b.last();
        lemma_with_key_members(a, y.0);
        lemma_with_key_members(b, y.0);
        assert(with_key(a, y.0) == with_key(b, y.0));
        assert(with_key(b, y.0).last() == y);
        assert(key_le(x.0, y.0)) by {
            let g = with_key(b, x.0);
            let e = g[g.len() - 1];
            assert(b.contains(e));
            let j = choose|j: int| 0 <= j < b.len() && b[j] == e;
            assert(key_le(b[j].0, b[b.len() - 1].0));
        }
        assert(key_le(y.0, x.0)) by {
            let g = with_key(a, y.0);
            let e = g[g.len() - 1];
            assert(a.contains(e));
            let j = choose|j: int| 0 <= j < a.len() && a[j] == e;
            assert(key_le(a[j].0, a[a.len() - 1].0));
        }
        lemma_key_le_antisym(x.0, y.0);
        let fa = a.drop_last();
        let fb = b.drop_last();
        assert(with_key(a, x.0) == with_key(fa, x.0).push(x));
        assert(with_key(b, x.0) == with_key(fb, x.0).push(y));
        assert(x == y) by {
            assert(with_key(fa, x.0).push(x).last() == x);
            assert(with_key(fb, x.0).push(y).last() == y);
        }
        assert forall|key: Seq<char>| #[trigger] with_key(fa, key) == with_key(fb, key) by {
            assert(with_key(a, key) == with_key(b, key));
            if key == x.0 {
                assert(with_key(fa, key) =~= with_key(fa, key).push(x).drop_last());
                assert(with_key(fb, key) =~= with_key(fb, key).push(y).drop_last());
            }
        }
        assert(keys_ascending(fa)) by {
            assert forall|i: int, j: int| 0 <= i <= j < fa.len() implies key_le(fa[i].0, fa[j].0) by {
                assert(fa[i] == a[i] && fa[j] == a[j]);
            }
        }
        assert(keys_ascending(fb)) by {
            assert forall|i: int, j: int| 0 <= i <= j < fb.len() implies key_le(fb[i].0, fb[j].0) by {
                assert(fb[i] == b[i] && fb[j] == b[j]);
            }
        }
        lemma_same_groups_equal(fa, fb);
        assert(a =~= fa.push(x));
        assert(b =~= fb.push(y));
    }
}

/// Sorting has one outcome: whatever is sorted from the same blocks is the
/// same arrangement. Sorting again what is sorted changes nothing.
pub proof fn lemma_sorted_unique(input: Seq<BlockView>, a: Seq<BlockView>, b: Seq<BlockView>)
    requires
        sorted_from(input, a),
    ensures
        sorted_from(input, b) ==> a == b,
        sorted_from(a, b) ==> a == b,
{
    if sorted_from(input, b) {
        assert forall|key: Seq<char>| #[trigger] with_key(a, key) == with_key(b, key) by {
            assert(with_key(a, key) == with_key(input, key));
            assert(with_key(b, key) == with_key(input, key));
        }
        lemma_same_groups_equal(a, b);
    }
    if sorted_from(a, b) {
        assert forall|key: Seq<char>| #[trigger] with_key(a, key) == with_key(b, key) by {
            assert(with_key(b, key) == with_key(a, key));
        }
        lemma_same_groups_equal(a, b);
    }
}

/// Sorting keeps every block.
pub proof fn lemma_sorted_contains(input: Seq<BlockView>, output: Seq<BlockView>, block: BlockView)
    requires
        sorted_from(input, output),
        input.contains(block),
    ensures
        output.contains(block),
{
    let i = choose|i: int| 0 <= i < input.len() && input[i] == block;
    lemma_with_key_members(input, block.0);
    assert(with_key(input, block.0).contains(input[i]));
    assert(with_key(output, block.0) == with_key(input, block.0));
    lemma_with_key_members(output, block.0);
    let w = choose|w: int| 0 <= w < with_key(output, block.0).len() && with_key(output, block.0)[w] == block;
    assert(output.contains(with_key(output, block.0)[w]));
}

/// Where keys ascend, a block whose key sorts strictly before another's
/// stands before it.
pub proof fn lemma_smaller_key_first(blocks: Seq<BlockView>, i: int, j: int)
    requires
        keys_ascending(blocks),
        0 <= i < blocks.len(),
        0 <= j < blocks.len(),
        !key_le(blocks[j].0, blocks[i].0),
    ensures
        i < j,
{
    if j <= i {
        assert(key_le(blocks[j].0, blocks[i].0));
    }
}

/// Sorts `blocks` by key in byte-wise order. Blocks with equal keys keep the
/// order they came in.
pub fn sort_blocks(blocks: &mut Vec<(String, Vec<String>)>)
    ensures
        sorted_from(old(blocks).deep_view(), final(blocks).deep_view()),
{
    let mut input: Vec<(String, Vec<String>)> = Vec::new();
    core::mem::swap(blocks, &mut input);
    let ghost all = input.deep_view();
    let ghost items = input@;
    assert(blocks.deep_view() =~= Seq::<BlockView>::empty());
    for block in it: input
        invariant
            it.seq() == items,
            all.len() == items.len(),
            forall|j: int| 0 <= j < items.len() ==> items[j].deep_view() == all[j],
            sorted_from(all.take(it.index() as int), blocks.deep_view()),
    {
        let ghost taken = it.index() as int;
        let ghost before = blocks.deep_view();
        let ghost b = block.deep_view();
        assert(b == all[taken]);
        let mut p: usize = blocks.len();
        while p > 0 && !str_le(blocks[p - 1].0.as_str(), block.0.as_str())
            invariant
                p <= blocks.len(),
                before == blocks.deep_view(),
                b == block.deep_view(),
                forall|j: int| p <= j < before.len() ==> !key_le(before[j].0, b.0),
            decreases p,
        {
            assert(blocks[p - 1].deep_view() == before[p - 1]);
            p -= 1;
        }
        proof {
            if p > 0 {
                assert(blocks[p - 1].deep_view() == before[p - 1]);
            }
        }
        blocks.insert(p, block);
        proof {
            let after = blocks.deep_view();
            let done = all.take(taken);
            let next = all.take(taken + 1);
            assert(after =~= before.insert(p as int, b));
            assert(after =~= before.take(p as int) + seq![b] + before.skip(p as int));
            assert(next =~= done + seq![b]);
            assert(before =~= before.take(p as int) + before.skip(p as int));
            assert forall|i: int, j: int| 0 <= i <= j < after.len() implies key_le(
                after[i].0,
                after[j].0,
            ) by {
                let kb = key_bytes(b.0);
                if i == p && j == p {
                    lemma_lex_le_refl(kb);
                } else if j == p {
                    assert(after[i] == before[i]);
                    assert(key_le(before[i].0, before[p - 1].0));
                    lemma_lex_le_trans(key_bytes(before[i].0), key_bytes(before[p - 1].0), kb);
                } else if i == p {
                    assert(after[j] == before[j - 1]);
                    lemma_lex_le_total(key_bytes(before[j - 1].0), kb);
                } else if i < p && j > p {
                    assert(after[i] == before[i]);
                    assert(after[j] == before[j - 1]);
                } else if i < p {
                    assert(after[i] == before[i]);
                    assert(after[j] == before[j]);
                } else {
                    assert(after[i] == before[i - 1]);
                    assert(after[j] == before[j - 1]);
                }
            }
            assert forall|key: Seq<char>| #[trigger] with_key(after, key) == with_key(next, key) by {
                let head = before.take(p as int);
                let tail = before.skip(p as int);
                lemma_with_key_concat(head + seq![b], tail, key);
                lemma_with_key_concat(head, seq![b], key);
                lemma_with_key_concat(head, tail, key);
                lemma_with_key_concat(done, seq![b], key);
                assert(with_key(before, key) == with_key(done, key));
                lemma_with_key_single(b, key);
                if b.0 == key {
                    assert forall|i: int| 0 <= i < tail.len() implies tail[i].0 != key by {
                        assert(tail[i] == before[p + i]);
                        if tail[i].0 == key {
                            lemma_lex_le_refl(key_bytes(key));
                        }
                    }
                    lemma_with_key_absent(tail, key);
                    assert(with_key(after, key) =~= with_key(next, key));
                } else {
                    assert(with_key(after, key) =~= with_key(next, key));
                }
            }
        }
    }
    assert(all.take(all.len() as int) =~= all);
}

} // verus!
