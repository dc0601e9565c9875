//! One sequence standing inside another.

use vstd::prelude::*;

verus! {

/// `part` stands in `whole` from `pos` on.
pub open spec fn sits_at<T>(whole: Seq<T>, pos: int, part: Seq<T>) -> bool {
    0 <= pos && pos + part.len() <= whole.len() && whole.subrange(pos, pos + part.len()) == part
}

/// Where `a + b` stands at `pos`, `a` stands at `pos` and `b` after it.
pub proof fn lemma_sits_split<T>(whole: Seq<T>, pos: int, a: Seq<T>, b: Seq<T>)
    requires
        sits_at(whole, pos, a + b),
    ensures
        sits_at(whole, pos, a),
        sits_at(whole, pos + a.len(), b),
{
    let both = whole.subrange(pos, pos + (a + b).len());
    assert(whole.subrange(pos, pos + a.len()) =~= both.subrange(0, a.len() as int));
    assert((a + b).subrange(0, a.len() as int) =~= a);
    assert(whole.subrange(pos + a.len(), pos + a.len() + b.len()) =~= both.subrange(
        a.len() as int,
        (a + b).len() as int,
    ));
    assert((a + b).subrange(a.len() as int, (a + b).len() as int) =~= b);
}

/// Where a sequence stands at `pos`, each part of it stands at its place.
pub proof fn lemma_sits_part<T>(whole: Seq<T>, pos: int, inner: Seq<T>, from: int, to: int)
    requires
        sits_at(whole, pos, inner),
        0 <= from <= to <= inner.len(),
    ensures
        sits_at(whole, pos + from, inner.subrange(from, to)),
{
    assert(whole.subrange(pos + from, pos + to) =~= whole.subrange(
        pos,
        pos + inner.len(),
    ).subrange(from, to));
}

/// Where a sequence stands at `pos`, its items are the items from `pos` on.
pub proof fn lemma_sits_index<T>(whole: Seq<T>, pos: int, part: Seq<T>, k: int)
    requires
        sits_at(whole, pos, part),
        0 <= k < part.len(),
    ensures
        whole[pos + k] == part[k],
{
    assert(whole.subrange(pos, pos + part.len())[k] == whole[pos + k]);
}

/// A sequence stands at the start of itself.
pub proof fn lemma_sits_whole<T>(whole: Seq<T>)
    ensures
        sits_at(whole, 0, whole),
{
    assert(whole.subrange(0, whole.len() as int) =~= whole);
}

} // verus!
