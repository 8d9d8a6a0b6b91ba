//! Facts about one byte sequence being the beginning of another.

use vstd::prelude::*;

verus! {

/// A beginning as long as the whole is the whole.
pub proof fn lemma_prefix_same_len(short: Seq<u8>, long: Seq<u8>)
    requires
        short.is_prefix_of(long),
        short.len() == long.len(),
    ensures
        short == long,
{
    assert(long.subrange(0, short.len() as int) =~= long);
}

/// Every sequence begins what it begins followed by anything.
pub proof fn lemma_prefix_of_concat(head: Seq<u8>, tail: Seq<u8>)
    ensures
        head.is_prefix_of(head + tail),
{
    assert(head =~= (head + tail).subrange(0, head.len() as int));
}

/// Being a beginning is transitive.
pub proof fn lemma_prefix_transitive(first: Seq<u8>, second: Seq<u8>, third: Seq<u8>)
    requires
        first.is_prefix_of(second),
        second.is_prefix_of(third),
    ensures
        first.is_prefix_of(third),
{
    assert(first =~= third.subrange(0, first.len() as int)) by {
        assert forall|i: int| 0 <= i < first.len() implies first[i] == third[i] by {
            assert(first[i] == second.subrange(0, first.len() as int)[i]);
            assert(second[i] == third.subrange(0, second.len() as int)[i]);
        }
    }
}

/// Of two beginnings of one sequence, one is a beginning of the other.
pub proof fn lemma_prefixes_comparable(first: Seq<u8>, second: Seq<u8>, whole: Seq<u8>)
    requires
        first.is_prefix_of(whole),
        second.is_prefix_of(whole),
    ensures
        first.is_prefix_of(second) || second.is_prefix_of(first),
{
    if first.len() <= second.len() {
        assert forall|i: int| 0 <= i < first.len() implies first[i] == second[i] by {
            assert(first[i] == whole.subrange(0, first.len() as int)[i]);
            assert(second[i] == whole.subrange(0, second.len() as int)[i]);
        }
        assert(first =~= second.subrange(0, first.len() as int));
    } else {
        assert forall|i: int| 0 <= i < second.len() implies first[i] == second[i] by {
            assert(first[i] == whole.subrange(0, first.len() as int)[i]);
            assert(second[i] == whole.subrange(0, second.len() as int)[i]);
        }
        assert(second =~= first.subrange(0, second.len() as int));
    }
}

/// A common beginning can be struck from both sides.
pub proof fn lemma_prefix_cancel(head: Seq<u8>, short: Seq<u8>, long: Seq<u8>)
    requires
        (head + short).is_prefix_of(head + long),
    ensures
        short.is_prefix_of(long),
{
    assert forall|i: int| 0 <= i < short.len() implies short[i] == long[i] by {
        let at = head.len() + i;
        assert((head + short)[at] == (head + long).subrange(0, (head + short).len() as int)[at]);
        assert((head + short)[at] == short[i]);
        assert((head + long)[at] == long[i]);
    }
    assert(short =~= long.subrange(0, short.len() as int));
}

} // verus!
