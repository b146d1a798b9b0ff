//! What it means for the delimiters of a chunk sequence to be paired
//! correctly, and the proof that the chunk store links them so.

use vstd::prelude::*;
use crate::token::{pushed, stack_in_bounds, TokenChunk, TokenType};

verus! {

/// How a token of this kind changes the nesting depth.
pub open spec fn nesting_step(kind: TokenType) -> int {
    if kind == TokenType::ParenOpen {
        1
    } else if kind == TokenType::ParenClose {
        -1
    } else {
        0
    }
}

/// Opening minus closing delimiters among the first `i` chunks.
pub open spec fn depth(chunks: Seq<TokenChunk>, i: int) -> int
    decreases i,
{
    if i <= 0 || i > chunks.len() {
        0
    } else {
        depth(chunks, i - 1) + nesting_step(chunks[i - 1].token_type)
    }
}

/// No closing delimiter comes before its opener, and none is left open.
pub open spec fn balanced(chunks: Seq<TokenChunk>) -> bool {
    &&& forall|i: int| 0 <= i <= chunks.len() ==> #[trigger] depth(chunks, i) >= 0
    &&& depth(chunks, chunks.len() as int) == 0
}

/// Chunk `close` is the closing delimiter that matches the opening delimiter
/// `open`: it is the first place after `open` at which the nesting depth comes
/// back to what it was in front of `open`.
pub open spec fn is_pair(chunks: Seq<TokenChunk>, open: int, close: int) -> bool {
    &&& 0 <= open < close < chunks.len()
    &&& chunks[open].token_type == TokenType::ParenOpen
    &&& chunks[close].token_type == TokenType::ParenClose
    &&& depth(chunks, close + 1) == depth(chunks, open)
    &&& forall|m: int| open < m <= close ==> #[trigger] depth(chunks, m) > depth(chunks, open)
}

/// Chunk `i` carries the link that its kind calls for: a delimiter names its
/// partner, and every other chunk names none.
pub open spec fn linked_at(chunks: Seq<TokenChunk>, i: int) -> bool {
    let chunk = chunks[i];
    if chunk.token_type == TokenType::ParenOpen {
        match chunk.pair_token {
            Some(j) => is_pair(chunks, i, j as int) && chunks[j as int].pair_token == Some(
                i as usize,
            ),
            None => false,
        }
    } else if chunk.token_type == TokenType::ParenClose {
        match chunk.pair_token {
            Some(j) => is_pair(chunks, j as int, i) && chunks[j as int].pair_token == Some(
                i as usize,
            ),
            None => false,
        }
    } else {
        chunk.pair_token is None
    }
}

/// Every chunk is linked as its kind calls for.
pub open spec fn pairs_linked(chunks: Seq<TokenChunk>) -> bool {
    forall|i: int| 0 <= i < chunks.len() ==> #[trigger] linked_at(chunks, i)
}

/// Entry `k` of the stack is an opening delimiter at depth `k` that is still
/// unlinked and has stayed open ever since.
pub open spec fn open_at(chunks: Seq<TokenChunk>, stack: Seq<usize>, k: int) -> bool {
    let i = stack[k] as int;
    &&& 0 <= i < chunks.len()
    &&& chunks[i].token_type == TokenType::ParenOpen
    &&& chunks[i].pair_token is None
    &&& depth(chunks, i) == k
    &&& forall|m: int| i < m <= chunks.len() ==> #[trigger] depth(chunks, m) > k
}

/// Chunk `i` is linked as its kind calls for, or is an opening delimiter that
/// waits on the stack.
pub open spec fn settled_at(chunks: Seq<TokenChunk>, stack: Seq<usize>, i: int) -> bool {
    linked_at(chunks, i) || (chunks[i].token_type == TokenType::ParenOpen
        && chunks[i].pair_token is None && exists|k: int|
        0 <= k < stack.len() && #[trigger] stack[k] == i)
}

/// The state of a store in which no closing delimiter has gone unmatched.
pub open spec fn clean(chunks: Seq<TokenChunk>, stack: Seq<usize>) -> bool {
    &&& chunks.len() <= usize::MAX
    &&& depth(chunks, chunks.len() as int) == stack.len()
    &&& forall|i: int| 0 <= i <= chunks.len() ==> #[trigger] depth(chunks, i) >= 0
    &&& forall|k: int| 0 <= k < stack.len() ==> #[trigger] open_at(chunks, stack, k)
    &&& forall|i: int| 0 <= i < chunks.len() ==> #[trigger] settled_at(chunks, stack, i)
}

/// What holds of a chunk store between two pushes, `invalid` being whether any
/// push so far reported an invalid pairing.
#[verifier::opaque]
pub open spec fn pairing_inv(chunks: Seq<TokenChunk>, stack: Seq<usize>, invalid: bool) -> bool {
    &&& stack_in_bounds(chunks, stack)
    &&& invalid ==> exists|i: int| 0 <= i <= chunks.len() && #[trigger] depth(chunks, i) < 0
    &&& !invalid ==> clean(chunks, stack)
}

/// The depth in front of chunk `i` looks at the chunks before `i` only.
pub proof fn lemma_depth_of_prefix(a: Seq<TokenChunk>, b: Seq<TokenChunk>, i: int)
    requires
        0 <= i <= a.len(),
        i <= b.len(),
        forall|m: int| 0 <= m < i ==> (#[trigger] a[m]).token_type == b[m].token_type,
    ensures
        depth(a, i) == depth(b, i),
    decreases i,
{
    if i > 0 {
        lemma_depth_of_prefix(a, b, i - 1);
    }
}

/// An empty store is in order.
pub proof fn lemma_pairing_of_empty()
    ensures
        pairing_inv(Seq::<TokenChunk>::empty(), Seq::<usize>::empty(), false),
{
    reveal(pairing_inv);
}

/// In a store that is in order, every entry of the stack is the index of a
/// chunk.
pub proof fn lemma_pairing_in_bounds(chunks: Seq<TokenChunk>, stack: Seq<usize>, invalid: bool)
    requires
        pairing_inv(chunks, stack, invalid),
    ensures
        stack_in_bounds(chunks, stack),
{
    reveal(pairing_inv);
}

/// Pushing one more token keeps the store in order, the flag taking up what
/// the push reports.
pub proof fn lemma_push_keeps_pairing(
    chunks: Seq<TokenChunk>,
    stack: Seq<usize>,
    invalid: bool,
    next: char,
    start: usize,
    end: usize,
    kind: TokenType,
)
    requires
        pairing_inv(chunks, stack, invalid),
        chunks.len() < usize::MAX,
    ensures
        pairing_inv(
            pushed(chunks, stack, next, start, end, kind).chunks,
            pushed(chunks, stack, next, start, end, kind).stack,
            invalid || pushed(chunks, stack, next, start, end, kind).invalid,
        ),
{
    reveal(pairing_inv);
    let after = pushed(chunks, stack, next, start, end, kind);
    let n = chunks.len() as int;
    assert(after.chunks.len() == n + 1);
    assert forall|m: int| 0 <= m < n implies (#[trigger] chunks[m]).token_type
        == after.chunks[m].token_type by {}
    assert forall|i: int| 0 <= i <= n implies depth(chunks, i) == #[trigger] depth(
        after.chunks,
        i,
    ) by {
        lemma_depth_of_prefix(chunks, after.chunks, i);
    }
    assert(after.chunks[n].token_type == kind);
    assert(depth(after.chunks, n + 1) == depth(after.chunks, n) + nesting_step(kind));
    assert(stack_in_bounds(after.chunks, after.stack));
    if invalid {
        let i = choose|i: int| 0 <= i <= chunks.len() && #[trigger] depth(chunks, i) < 0;
        assert(depth(after.chunks, i) < 0);
    } else if after.invalid {
        assert(stack.len() == 0);
        assert(depth(after.chunks, n + 1) < 0);
    } else {
        lemma_push_keeps_clean(chunks, stack, next, start, end, kind);
    }
}

proof fn lemma_push_keeps_clean(
    chunks: Seq<TokenChunk>,
    stack: Seq<usize>,
    next: char,
    start: usize,
    end: usize,
    kind: TokenType,
)
    requires
        clean(chunks, stack),
        stack_in_bounds(chunks, stack),
        chunks.len() < usize::MAX,
        !pushed(chunks, stack, next, start, end, kind).invalid,
    ensures
        clean(
            pushed(chunks, stack, next, start, end, kind).chunks,
            pushed(chunks, stack, next, start, end, kind).stack,
        ),
{
    let after = pushed(chunks, stack, next, start, end, kind);
    let n = chunks.len() as int;
    let ac = after.chunks;
    let st = after.stack;
    assert(ac.len() == n + 1);
    assert forall|i: int| 0 <= i <= n implies depth(chunks, i) == #[trigger] depth(ac, i) by {
        assert forall|m: int| 0 <= m < i implies (#[trigger] chunks[m]).token_type
            == ac[m].token_type by {}
        lemma_depth_of_prefix(chunks, ac, i);
    }
    assert(ac[n].token_type == kind);
    assert(depth(ac, n + 1) == depth(ac, n) + nesting_step(kind));
    assert(depth(chunks, n) == stack.len());

    if kind == TokenType::ParenOpen {
        assert(st == stack.push(n as usize));
        assert forall|k: int| 0 <= k < st.len() implies #[trigger] open_at(ac, st, k) by {
            if k < stack.len() {
                assert(open_at(chunks, stack, k));
                assert(st[k] == stack[k]);
                let i = stack[k] as int;
                assert forall|m: int| i < m <= ac.len() implies #[trigger] depth(ac, m) > k by {
                    if m <= n {
                        assert(depth(chunks, m) > k);
                    }
                }
            } else {
                assert(st[k] == n);
            }
        }
        assert forall|i: int| 0 <= i < ac.len() implies #[trigger] settled_at(ac, st, i) by {
            if i < n {
                assert(settled_at(chunks, stack, i));
                if !linked_at(chunks, i) {
                    let k = choose|k: int| 0 <= k < stack.len() && #[trigger] stack[k] == i;
                    assert(st[k] == i);
                }
                lemma_settled_survives(chunks, stack, ac, st, i);
            } else {
                assert(st[stack.len() as int] == n);
            }
        }
    } else if kind == TokenType::ParenClose {
        let top = stack.len() - 1;
        let o = stack[top] as int;
        assert(open_at(chunks, stack, top));
        assert(st == stack.drop_last());
        assert(ac[o].pair_token == Some(n as usize));
        assert(ac[n].pair_token == Some(o as usize));
        assert(depth(ac, o) == top);
        assert(depth(ac, n + 1) == top);
        assert forall|m: int| o < m <= n implies #[trigger] depth(ac, m) > depth(ac, o) by {
            assert(depth(chunks, m) > top);
        }
        assert(is_pair(ac, o, n));
        assert forall|k: int| 0 <= k < st.len() implies #[trigger] open_at(ac, st, k) by {
            assert(open_at(chunks, stack, k));
            assert(st[k] == stack[k]);
            let i = stack[k] as int;
            assert(open_at(chunks, stack, k + 1)) by {
                if k + 1 < top {
                    assert(open_at(chunks, stack, k + 1));
                }
            }
            assert(depth(chunks, o) == top);
            assert(i != o) by {
                assert(depth(chunks, i) == k);
            }
            assert forall|m: int| i < m <= ac.len() implies #[trigger] depth(ac, m) > k by {
                if m <= n {
                    assert(depth(chunks, m) > k);
                }
            }
        }
        assert forall|i: int| 0 <= i < ac.len() implies #[trigger] settled_at(ac, st, i) by {
            if i == n || i == o {
                assert(linked_at(ac, i));
            } else {
                assert(settled_at(chunks, stack, i));
                if !linked_at(chunks, i) {
                    let k = choose|k: int| 0 <= k < stack.len() && #[trigger] stack[k] == i;
                    assert(k != top);
                    assert(st[k] == i);
                }
                lemma_settled_survives(chunks, stack, ac, st, i);
            }
        }
    } else {
        assert(st == stack);
        assert forall|k: int| 0 <= k < st.len() implies #[trigger] open_at(ac, st, k) by {
            assert(open_at(chunks, stack, k));
            let i = stack[k] as int;
            assert forall|m: int| i < m <= ac.len() implies #[trigger] depth(ac, m) > k by {
                if m <= n {
                    assert(depth(chunks, m) > k);
                }
            }
        }
        assert forall|i: int| 0 <= i < ac.len() implies #[trigger] settled_at(ac, st, i) by {
            if i < n {
                assert(settled_at(chunks, stack, i));
                lemma_settled_survives(chunks, stack, ac, st, i);
            }
        }
    }
}

/// A chunk that was settled stays settled when the store grows, as long as
/// the chunk itself, its partner and its place on the stack are left alone.
proof fn lemma_settled_survives(
    chunks: Seq<TokenChunk>,
    stack: Seq<usize>,
    ac: Seq<TokenChunk>,
    st: Seq<usize>,
    i: int,
)
    requires
        0 <= i < chunks.len(),
        ac.len() == chunks.len() + 1,
        settled_at(chunks, stack, i),
        forall|m: int| 0 <= m < chunks.len() ==> (#[trigger] chunks[m]).token_type
            == ac[m].token_type,
        forall|m: int| 0 <= m <= chunks.len() ==> depth(chunks, m) == #[trigger] depth(ac, m),
        ac[i] == chunks[i],
        linked_at(chunks, i) && chunks[i].pair_token is Some ==> ac[chunks[i].pair_token->0 as int]
            == chunks[chunks[i].pair_token->0 as int],
        !linked_at(chunks, i) ==> exists|k: int| 0 <= k < st.len() && #[trigger] st[k] == i,
    ensures
        settled_at(ac, st, i),
{
    if linked_at(chunks, i) {
        if chunks[i].pair_token is Some {
            let j = chunks[i].pair_token->0 as int;
            if chunks[i].token_type == TokenType::ParenOpen {
                assert(is_pair(chunks, i, j));
                assert forall|m: int| i < m <= j implies #[trigger] depth(ac, m) > depth(
                    ac,
                    i,
                ) by {
                    assert(depth(chunks, m) > depth(chunks, i));
                }
                assert(is_pair(ac, i, j));
            } else if chunks[i].token_type == TokenType::ParenClose {
                assert(is_pair(chunks, j, i));
                assert forall|m: int| j < m <= i implies #[trigger] depth(ac, m) > depth(
                    ac,
                    j,
                ) by {
                    assert(depth(chunks, m) > depth(chunks, j));
                }
                assert(is_pair(ac, j, i));
            }
        }
        assert(linked_at(ac, i));
    }
}

/// When the last token is in, the store tells whether the delimiters are
/// balanced: they are unless a push reported an invalid pairing or an opening
/// delimiter is still on the stack. Where they are balanced, every chunk is
/// linked as its kind calls for.
pub proof fn lemma_pairing_at_end(chunks: Seq<TokenChunk>, stack: Seq<usize>, invalid: bool)
    requires
        pairing_inv(chunks, stack, invalid),
    ensures
        balanced(chunks) <==> !invalid && stack.len() == 0,
        balanced(chunks) ==> pairs_linked(chunks),
{
    reveal(pairing_inv);
    if !invalid && stack.len() == 0 {
        assert forall|i: int| 0 <= i < chunks.len() implies #[trigger] linked_at(chunks, i) by {
            assert(settled_at(chunks, stack, i));
        }
    }
}

} // verus!
