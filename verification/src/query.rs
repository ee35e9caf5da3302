//! The answer to a query: the moves from a position, each with the number
//! of positions below it, for at most `MAX_LEGAL_MOVES` distinct moves.
use vstd::prelude::*;

verus! {

/// The greatest number of distinct moves a query answer holds.
pub const MAX_LEGAL_MOVES: usize = 256;

/// Moves `movs[..num_children]` with their sizes `sizes[..num_children]`.
#[derive(Clone, Copy)]
pub struct query_result {
    pub movs: [u16; 256],
    pub sizes: [u32; 256],
    pub num_children: usize,
}

/// What a query answer holds.
#[verifier::ext_equal]
pub struct QueryView {
    pub movs: Seq<u16>,
    pub sizes: Seq<u32>,
    pub n: int,
}

impl View for query_result {
    type V = QueryView;

    open spec fn view(&self) -> QueryView {
        QueryView { movs: self.movs@, sizes: self.sizes@, n: self.num_children as int }
    }
}

/// An answer with room for its entries.
pub open spec fn query_wf(q: QueryView) -> bool {
    q.movs.len() == MAX_LEGAL_MOVES && q.sizes.len() == MAX_LEGAL_MOVES && 0 <= q.n <= MAX_LEGAL_MOVES
}

/// The first entry at or after `i` whose move is `mov`.
pub open spec fn find_move(q: QueryView, mov: u16, i: int) -> Option<int>
    decreases q.n - i,
{
    if i >= q.n {
        None
    } else if q.movs[i] == mov {
        Some(i)
    } else {
        find_move(q, mov, i + 1)
    }
}

/// The answer after adding `size` for `mov`: added to the entry of that move
/// (wrapping around), or a new entry at the end; `None` when a new entry is
/// needed and there is no room.
pub open spec fn add_model(q: QueryView, mov: u16, size: u32) -> Option<QueryView> {
    match find_move(q, mov, 0) {
        Some(j) => Some(QueryView { sizes: q.sizes.update(j, q.sizes[j].wrapping_add(size)), ..q }),
        None => if q.n < MAX_LEGAL_MOVES {
            Some(
                QueryView {
                    movs: q.movs.update(q.n, mov),
                    sizes: q.sizes.update(q.n, size),
                    n: q.n + 1,
                },
            )
        } else {
            None
        },
    }
}

/// Empties an answer (`query_result_clear`).
pub fn query_result_clear(result: &mut query_result)
    ensures
        final(result).num_children == 0,
        forall|i: int| 0 <= i < MAX_LEGAL_MOVES ==> final(result).movs@[i] == 0 && final(result).sizes@[i] == 0,
{
    let mut i: usize = 0;
    while i < MAX_LEGAL_MOVES
        invariant
            i <= MAX_LEGAL_MOVES,
            forall|j: int| 0 <= j < i ==> result.movs@[j] == 0 && result.sizes@[j] == 0,
        decreases MAX_LEGAL_MOVES - i,
    {
        result.movs[i] = 0;
        result.sizes[i] = 0;
        i = i + 1;
    }
    result.num_children = 0;
}

/// Adds `size` positions for `mov` when there is room for it: `false`, with
/// the answer unchanged, when a new entry is needed and the answer is full.
pub fn query_result_try_add(result: &mut query_result, mov: u16, size: u32) -> (ok: bool)
    requires
        query_wf(old(result)@),
    ensures
        query_wf(final(result)@),
        ok == add_model(old(result)@, mov, size) is Some,
        ok ==> add_model(old(result)@, mov, size) == Some(final(result)@),
        !ok ==> *final(result) == *old(result),
{
    let ghost q = result@;
    let n = result.num_children;
    let mut i: usize = 0;
    while i < n
        invariant
            n == result.num_children,
            result@ == q,
            query_wf(q),
            i <= n,
            find_move(q, mov, 0) == find_move(q, mov, i as int),
        ensures
            i <= n,
            find_move(q, mov, 0) == find_move(q, mov, i as int),
            i < n ==> result.movs@[i as int] == mov,
        decreases n - i,
    {
        if result.movs[i] == mov {
            break;
        }
        i = i + 1;
    }
    if i < n {
        assert(find_move(q, mov, i as int) == Some(i as int));
        result.sizes[i] = result.sizes[i].wrapping_add(size);
        assert(result@ =~~= add_model(q, mov, size).unwrap());
        true
    } else if n < MAX_LEGAL_MOVES {
        result.movs[n] = mov;
        result.sizes[n] = size;
        result.num_children = n + 1;
        assert(result@ =~~= add_model(q, mov, size).unwrap());
        true
    } else {
        false
    }
}

/// Adds `size` positions for `mov` (`query_result_add`).
pub fn query_result_add(result: &mut query_result, mov: u16, size: u32)
    requires
        query_wf(old(result)@),
        add_model(old(result)@, mov, size) is Some,
    ensures
        query_wf(final(result)@),
        add_model(old(result)@, mov, size) == Some(final(result)@),
{
    let _ = query_result_try_add(result, mov, size);
}

/// Leaves the answer in the order the moves were added (`query_result_sort`).
pub fn query_result_sort(result: &mut query_result)
    ensures
        *final(result) == *old(result),
{
}

/// No move has two entries.
pub open spec fn moves_distinct(q: QueryView) -> bool {
    forall|i: int, j: int| 0 <= i < j < q.n ==> q.movs[i] != q.movs[j]
}

/// The size recorded for a move, 0 when it has no entry.
pub open spec fn recorded(q: QueryView, mov: u16) -> u32 {
    match find_move(q, mov, 0) {
        Some(j) => q.sizes[j],
        None => 0,
    }
}

proof fn lemma_find_move(q: QueryView, mov: u16, i: int)
    requires
        0 <= i,
    ensures
        find_move(q, mov, i) matches Some(j) ==> i <= j < q.n && q.movs[j] == mov && forall|k: int|
            i <= k < j ==> q.movs[k] != mov,
        find_move(q, mov, i) is None ==> forall|k: int| i <= k < q.n ==> q.movs[k] != mov,
    decreases q.n - i,
{
    if i < q.n && q.movs[i] != mov {
        lemma_find_move(q, mov, i + 1);
    }
}

proof fn lemma_find_move_at(q: QueryView, mov: u16, j: int)
    requires
        0 <= j < q.n,
        q.movs[j] == mov,
        forall|k: int| 0 <= k < j ==> q.movs[k] != mov,
    ensures
        find_move(q, mov, 0) == Some(j),
{
    lemma_find_move(q, mov, 0);
    if let Some(j2) = find_move(q, mov, 0) {
        assert(!(j2 < j));
        assert(!(j < j2));
    }
}

/// Adding keeps moves distinct: the added size goes to the move's entry
/// (wrapping around), and every other move keeps its size.
pub proof fn lemma_add_accumulates(q: QueryView, mov: u16, size: u32)
    requires
        query_wf(q),
        moves_distinct(q),
        add_model(q, mov, size) is Some,
    ensures
        moves_distinct(add_model(q, mov, size).unwrap()),
        recorded(add_model(q, mov, size).unwrap(), mov) == recorded(q, mov).wrapping_add(size),
        forall|m: u16| m != mov ==> recorded(add_model(q, mov, size).unwrap(), m) == recorded(q, m),
{
    let q2 = add_model(q, mov, size).unwrap();
    lemma_find_move(q, mov, 0);
    assert forall|m: u16| true implies recorded(q2, m) == if m == mov { recorded(q, mov).wrapping_add(size) } else { recorded(q, m) } by {
        lemma_find_move(q, m, 0);
        lemma_find_move(q2, m, 0);
        match find_move(q, m, 0) {
            Some(j) => {
                lemma_find_move_at(q2, m, j);
            },
            None => {
                if m == mov {
                    lemma_find_move_at(q2, m, q.n);
                } else {
                    assert(find_move(q2, m, 0) is None);
                }
            },
        }
    }
    assert(recorded(q2, mov) == recorded(q, mov).wrapping_add(size));
}

} // verus!
