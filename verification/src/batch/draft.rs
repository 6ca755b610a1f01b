//! Drafts: where they come from on the host, and how they are laid out for a verify.

use vstd::prelude::*;

use crate::batch::tree;

verus! {

/// Most columns that one verify takes.
pub const MAX_VERIFY: usize = 16;

/// Most lanes that are packed into one verify.
pub const MAX_PACK: usize = 5;

/// The `n` tokens from `j` on are the last `n` tokens.
pub open spec fn recurs(work: Seq<u32>, n: int, j: int) -> bool {
    work.subrange(j, j + n) == work.skip(work.len() - n)
}

/// The latest place before `end` where the last `n` tokens occurred earlier.
pub open spec fn latest(work: Seq<u32>, n: int, end: int) -> Option<int>
    decreases end,
{
    if end <= 0 {
        None
    } else if recurs(work, n, end - 1) {
        Some(end - 1)
    } else {
        latest(work, n, end - 1)
    }
}

/// What followed the latest earlier occurrence of the last `n` tokens.
pub open spec fn looked_up(work: Seq<u32>, n: int) -> Option<u32> {
    if n <= 0 || work.len() < n {
        None
    } else {
        match latest(work, n, work.len() - n) {
            Some(j) => Some(work[j + n]),
            None => None,
        }
    }
}

fn same_tokens(work: &Vec<u32>, i: usize, j: usize, n: usize) -> (r: bool)
    requires
        i + n <= work@.len(),
        j + n <= work@.len(),
    ensures
        r == (work@.subrange(i as int, i + n) == work@.subrange(j as int, j + n)),
{
    let ghost a = work@.subrange(i as int, i + n);
    let ghost b = work@.subrange(j as int, j + n);
    let len: usize = work.len();
    let mut k: usize = 0;
    while k < n
        invariant
            k <= n,
            len == work@.len(),
            i + n <= len,
            j + n <= len,
            a == work@.subrange(i as int, i + n),
            b == work@.subrange(j as int, j + n),
            forall|x: int| 0 <= x < k ==> #[trigger] a[x] == b[x],
        decreases n - k,
    {
        if work[i + k] != work[j + k] {
            assert(a[k as int] != b[k as int]);
            return false;
        }
        k += 1;
    }
    assert(a =~= b);
    true
}

/// Proposes the token that followed the latest earlier occurrence of the last `n` tokens. `n` of
/// zero proposes nothing.
pub fn lookup_draft(work: &Vec<u32>, n: usize) -> (r: Option<u32>)
    ensures
        r == looked_up(work@, n as int),
{
    if n == 0 || work.len() < n {
        return None;
    }
    let len: usize = work.len();
    let tail: usize = len - n;
    assert(work@.skip(tail as int) =~= work@.subrange(tail as int, tail + n));
    let mut j: usize = tail;
    while j > 0
        invariant
            0 < n,
            len == work@.len(),
            tail + n == len,
            j <= tail,
            work@.skip(tail as int) == work@.subrange(tail as int, tail + n),
            latest(work@, n as int, tail as int) == latest(work@, n as int, j as int),
        decreases j,
    {
        j -= 1;
        if same_tokens(work, j, tail, n) {
            return Some(work[j + n]);
        }
    }
    None
}

/// Drafts of a chain of `depth` columns: the first column is the committed token, and a verify has
/// at most `MAX_VERIFY` columns.
pub fn draft_count(depth: usize) -> (n: usize)
    ensures
        n == if depth == 0 {
            0
        } else if depth > MAX_VERIFY {
            MAX_VERIFY - 1
        } else {
            depth - 1
        },
{
    if depth == 0 {
        0
    } else if depth > MAX_VERIFY {
        MAX_VERIFY - 1
    } else {
        depth - 1
    }
}

/// The chain of drafts starts with the head's own choice, which the lookup overrides.
pub open spec fn overridden(head: u32, work: Seq<u32>, n: int) -> u32 {
    match looked_up(work, n) {
        Some(t) => t,
        None => head,
    }
}

/// The next draft of a chain: the head's choice, unless the lookup finds one. The context grows
/// with it while the lookup is on and the context is long enough for it.
pub fn next_draft(head: u32, work: &mut Vec<u32>, n: usize) -> (t: u32)
    requires
        old(work)@.len() < usize::MAX,
    ensures
        t == overridden(head, old(work)@, n as int),
        final(work)@ == if 0 < n <= old(work)@.len() {
            old(work)@.push(t)
        } else {
            old(work)@
        },
{
    let t: u32 = match lookup_draft(work, n) {
        Some(x) => x,
        None => head,
    };
    if n > 0 && work.len() >= n {
        work.push(t);
    }
    t
}

/// Width of a level in a table of candidates.
pub const CANDIDATES: usize = 16;

/// The first candidate from `c` on in a row that is neither the chain's token nor taken.
pub open spec fn fresh(row: Seq<u32>, chain: u32, taken: Seq<u32>, c: int) -> Option<u32>
    decreases row.len() - c,
{
    if c < 0 || c >= row.len() {
        None
    } else if row[c] != chain && !taken.contains(row[c]) {
        Some(row[c])
    } else {
        fresh(row, chain, taken, c + 1)
    }
}

/// Row `j` of a table of candidates.
pub open spec fn candidate_row(table: Seq<u32>, j: int) -> Seq<u32> {
    table.subrange(j * CANDIDATES, j * CANDIDATES + CANDIDATES)
}

/// The second branch over the first `levels` levels: on each the best candidate that the chain did
/// not take there and that the branch does not hold yet. It ends at the first level without one.
pub open spec fn branch(drafts: Seq<u32>, table: Seq<u32>, levels: int) -> Seq<u32>
    decreases levels,
{
    if levels <= 0 {
        Seq::empty()
    } else {
        let b = branch(drafts, table, levels - 1);
        if b.len() < levels - 1 {
            b
        } else {
            match fresh(candidate_row(table, levels - 1), drafts[levels - 1], b, 0) {
                Some(t) => b.push(t),
                None => b,
            }
        }
    }
}

proof fn lemma_branch_stops(drafts: Seq<u32>, table: Seq<u32>, j: int, levels: int)
    requires
        0 <= j <= levels,
        branch(drafts, table, j).len() < j,
    ensures
        branch(drafts, table, levels) == branch(drafts, table, j),
    decreases levels - j,
{
    if j < levels {
        lemma_branch_stops(drafts, table, j, levels - 1);
    }
}

proof fn lemma_branch_len(drafts: Seq<u32>, table: Seq<u32>, levels: int)
    requires
        0 <= levels,
    ensures
        branch(drafts, table, levels).len() <= levels,
    decreases levels,
{
    if levels > 0 {
        lemma_branch_len(drafts, table, levels - 1);
    }
}

/// Builds the second branch of a tree from the candidates of each level.
pub fn alternates(drafts: &Vec<u32>, table: &Vec<u32>) -> (b: Vec<u32>)
    requires
        drafts@.len() * CANDIDATES <= table@.len(),
    ensures
        b@ == branch(drafts@, table@, drafts@.len() as int),
        b@.len() <= drafts@.len(),
{
    let mut b: Vec<u32> = Vec::new();
    let mut j: usize = 0;
    let mut base: usize = 0;
    let len: usize = table.len();
    while j < drafts.len()
        invariant
            len == table@.len(),
            drafts@.len() * CANDIDATES <= len,
            j <= drafts@.len(),
            base == j * CANDIDATES,
            b@ == branch(drafts@, table@, j as int),
            b@.len() == j,
        decreases drafts@.len() - j,
    {
        let ghost row = candidate_row(table@, j as int);
        assert(row.len() == CANDIDATES);
        let mut c: usize = 0;
        let mut best: Option<u32> = None;
        while c < CANDIDATES && best.is_none()
            invariant
                drafts@.len() * CANDIDATES <= table@.len(),
                j < drafts@.len(),
                base == j * CANDIDATES,
                c <= CANDIDATES,
                row == candidate_row(table@, j as int),
                row.len() == CANDIDATES,
                match best {
                    Some(t) => fresh(row, drafts@[j as int], b@, 0) == Some(t),
                    None => fresh(row, drafts@[j as int], b@, 0) == fresh(
                        row,
                        drafts@[j as int],
                        b@,
                        c as int,
                    ),
                },
            decreases CANDIDATES - c, (if best is None { 1int } else { 0 }),
        {
            assert(base + c < table@.len());
            let t: u32 = table[base + c];
            assert(row[c as int] == t);
            if t != drafts[j] && !crate::batch::lane::holds(&b, t) {
                best = Some(t);
            } else {
                c += 1;
            }
        }
        match best {
            Some(t) => {
                b.push(t);
            },
            None => {
                proof {
                    assert(fresh(row, drafts@[j as int], b@, 0) is None);
                    assert(branch(drafts@, table@, j + 1) == b@);
                    lemma_branch_stops(drafts@, table@, j + 1, drafts@.len() as int);
                }
                return b;
            },
        }
        j += 1;
        base += CANDIDATES;
    }
    b
}

/// Tokens of a tree of two branches: the committed token, the chain, the second branch.
pub open spec fn tree_tokens(committed: u32, chain: Seq<u32>, b: Seq<u32>) -> Seq<u32> {
    seq![committed] + chain + b
}

/// Parents in a tree of two branches, which both hang below the committed token.
pub open spec fn tree_parent(chain: int, b: int) -> Seq<i32> {
    Seq::new(
        (1 + chain + b) as nat,
        |c: int|
            if c == 0 {
                -1i32
            } else if c == chain + 1 {
                0i32
            } else {
                (c - 1) as i32
            },
    )
}

/// Lays a tree of two branches out, as tokens and parents.
pub fn two_branch_tree(committed: u32, chain: &Vec<u32>, b: &Vec<u32>) -> (r: (Vec<u32>, Vec<i32>))
    requires
        1 + chain@.len() + b@.len() <= i32::MAX,
    ensures
        r.0@ == tree_tokens(committed, chain@, b@),
        r.1@ == tree_parent(chain@.len() as int, b@.len() as int),
        tree::tree_ok(r.1@),
{
    let mut tokens: Vec<u32> = Vec::new();
    let mut parent: Vec<i32> = Vec::new();
    tokens.push(committed);
    parent.push(-1);
    let ghost all = tree_tokens(committed, chain@, b@);
    let ghost want = tree_parent(chain@.len() as int, b@.len() as int);
    assert(tokens@ =~= all.take(1));
    assert(parent@ =~= want.take(1));
    let mut k: usize = 0;
    while k < chain.len()
        invariant
            1 + chain@.len() + b@.len() <= i32::MAX,
            k <= chain@.len(),
            all == tree_tokens(committed, chain@, b@),
            want == tree_parent(chain@.len() as int, b@.len() as int),
            tokens@ == all.take(k + 1),
            parent@ == want.take(k + 1),
        decreases chain@.len() - k,
    {
        tokens.push(chain[k]);
        parent.push(k as i32);
        k += 1;
        assert(tokens@ =~= all.take(k + 1));
        assert(parent@ =~= want.take(k + 1));
    }
    let mut j: usize = 0;
    while j < b.len()
        invariant
            1 + chain@.len() + b@.len() <= i32::MAX,
            j <= b@.len(),
            all == tree_tokens(committed, chain@, b@),
            want == tree_parent(chain@.len() as int, b@.len() as int),
            tokens@ == all.take(chain@.len() + j + 1),
            parent@ == want.take(chain@.len() + j + 1),
        decreases b@.len() - j,
    {
        tokens.push(b[j]);
        if j == 0 {
            parent.push(0);
        } else {
            parent.push((chain.len() + j) as i32);
        }
        j += 1;
        assert(tokens@ =~= all.take(chain@.len() + j + 1));
        assert(parent@ =~= want.take(chain@.len() + j + 1));
    }
    assert(all.take(all.len() as int) =~= all);
    assert(want.take(want.len() as int) =~= want);
    (tokens, parent)
}

/// The tree of the selector round fits in one verify: a chain and a branch of seven levels.
pub proof fn law_selector_tree_fits(drafts: Seq<u32>, table: Seq<u32>)
    requires
        drafts.len() == 7,
    ensures
        1 + drafts.len() + branch(drafts, table, 7).len() <= MAX_VERIFY,
{
    lemma_branch_len(drafts, table, 7);
}

/// No token stands twice in the second branch, and none repeats the chain's choice on its level.
pub proof fn law_branch_adds_new_tokens(drafts: Seq<u32>, table: Seq<u32>, levels: int)
    requires
        0 <= levels,
    ensures
        branch(drafts, table, levels).no_duplicates(),
        forall|j: int|
            0 <= j < branch(drafts, table, levels).len() ==> #[trigger] branch(
                drafts,
                table,
                levels,
            )[j] != drafts[j],
    decreases levels,
{
    if levels > 0 {
        law_branch_adds_new_tokens(drafts, table, levels - 1);
        lemma_branch_len(drafts, table, levels - 1);
        let b = branch(drafts, table, levels - 1);
        if b.len() == levels - 1 {
            lemma_fresh(candidate_row(table, levels - 1), drafts[levels - 1], b, 0);
        }
    }
}

proof fn lemma_fresh(row: Seq<u32>, chain: u32, taken: Seq<u32>, c: int)
    requires
        0 <= c,
    ensures
        fresh(row, chain, taken, c) matches Some(t) ==> t != chain && !taken.contains(t)
            && row.contains(t),
    decreases row.len() - c,
{
    if c < row.len() && !(row[c] != chain && !taken.contains(row[c])) {
        lemma_fresh(row, chain, taken, c + 1);
    }
}


/// The `n` tokens from `j` on are, one by one, the last `n` tokens.
pub open spec fn repeats(work: Seq<u32>, n: int, j: int) -> bool {
    forall|x: int|
        0 <= x < n ==> #[trigger] work[j + x] == work[work.len() - n + x]
}

proof fn lemma_repeats(work: Seq<u32>, n: int, j: int)
    requires
        0 <= n,
        0 <= j,
        j + n <= work.len(),
    ensures
        recurs(work, n, j) == repeats(work, n, j),
{
    let a = work.subrange(j, j + n);
    let b = work.skip(work.len() - n);
    if recurs(work, n, j) {
        assert forall|x: int| 0 <= x < n implies #[trigger] work[j + x] == work[work.len() - n
            + x] by {
            assert(a[x] == b[x]);
        }
    }
    if repeats(work, n, j) {
        assert forall|x: int| 0 <= x < n implies a[x] == b[x] by {
            assert(work[j + x] == work[work.len() - n + x]);
        }
        assert(a =~= b);
    }
}

proof fn lemma_latest(work: Seq<u32>, n: int, end: int)
    requires
        0 <= n,
        0 <= end,
        end + n <= work.len(),
    ensures
        match latest(work, n, end) {
            Some(j) => 0 <= j < end && repeats(work, n, j) && forall|i: int|
                j < i < end ==> !#[trigger] repeats(work, n, i),
            None => forall|i: int| 0 <= i < end ==> !#[trigger] repeats(work, n, i),
        },
    decreases end,
{
    if end > 0 {
        lemma_repeats(work, n, end - 1);
        lemma_latest(work, n, end - 1);
    }
}

/// The lookup proposes what followed the latest earlier place where the last `n` tokens stood: no
/// later one has them. It proposes nothing exactly where they stand nowhere earlier.
pub proof fn law_the_lookup_repeats_the_latest(work: Seq<u32>, n: int)
    requires
        0 < n <= work.len(),
    ensures
        match looked_up(work, n) {
            Some(t) => exists|j: int| #[trigger]
                repeats(work, n, j) && 0 <= j < work.len() - n && t == work[j + n] && forall|i: int|
                    j < i < work.len() - n ==> !#[trigger] repeats(work, n, i),
            None => forall|i: int| 0 <= i < work.len() - n ==> !#[trigger] repeats(work, n, i),
        },
{
    lemma_latest(work, n, work.len() - n);
}

/// The candidate of level `j` and place `c` is neither the chain's token on that level nor among
/// the first `j` tokens of the branch.
pub open spec fn usable(drafts: Seq<u32>, table: Seq<u32>, b: Seq<u32>, j: int, c: int) -> bool {
    table[j * 16 + c] != drafts[j] && forall|i: int| 0 <= i < j ==> #[trigger] b[i] != table[j * 16 + c]
}

/// The branch holds the first usable candidate of level `j`.
pub open spec fn best_taken(drafts: Seq<u32>, table: Seq<u32>, b: Seq<u32>, j: int) -> bool {
    exists|c: int| #[trigger]
        usable(drafts, table, b, j, c) && 0 <= c < 16 && b[j] == table[j * 16 + c] && forall|d: int|
            0 <= d < c ==> !#[trigger] usable(drafts, table, b, j, d)
}

proof fn lemma_first_fresh(row: Seq<u32>, chain: u32, taken: Seq<u32>, c: int)
    requires
        0 <= c,
    ensures
        match fresh(row, chain, taken, c) {
            Some(t) => exists|x: int|
                c <= x < row.len() && #[trigger] row[x] == t && t != chain && !taken.contains(t)
                    && forall|y: int|
                    c <= y < x ==> (#[trigger] row[y] == chain || taken.contains(row[y])),
            None => forall|y: int|
                c <= y < row.len() ==> (#[trigger] row[y] == chain || taken.contains(row[y])),
        },
    decreases row.len() - c,
{
    if c < row.len() {
        if row[c] != chain && !taken.contains(row[c]) {
            assert(row[c] == row[c]);
        } else {
            lemma_first_fresh(row, chain, taken, c + 1);
            match fresh(row, chain, taken, c + 1) {
                Some(t) => {
                    let x = choose|x: int|
                        c + 1 <= x < row.len() && #[trigger] row[x] == t && t != chain
                            && !taken.contains(t) && forall|y: int|
                            c + 1 <= y < x ==> (#[trigger] row[y] == chain || taken.contains(
                                row[y],
                            ));
                    assert forall|y: int| c <= y < x implies (#[trigger] row[y] == chain
                        || taken.contains(row[y])) by {
                        if y > c {
                        }
                    }
                    assert(row[x] == t);
                },
                None => {},
            }
        }
    }
}

/// On every level the second branch takes the first usable candidate, and it ends before the last
/// level only where none of the sixteen is usable.
pub proof fn law_the_branch_takes_the_best_candidates(
    drafts: Seq<u32>,
    table: Seq<u32>,
    levels: int,
)
    requires
        0 <= levels <= drafts.len(),
        drafts.len() * 16 <= table.len(),
    ensures
        ({
            let b = branch(drafts, table, levels);
            &&& b.len() <= levels
            &&& forall|j: int| 0 <= j < b.len() ==> #[trigger] best_taken(drafts, table, b, j)
            &&& b.len() < levels ==> forall|c: int|
                0 <= c < 16 ==> !#[trigger] usable(drafts, table, b, b.len() as int, c)
        }),
    decreases levels,
{
    if levels > 0 {
        law_the_branch_takes_the_best_candidates(drafts, table, levels - 1);
        let prior = branch(drafts, table, levels - 1);
        let b = branch(drafts, table, levels);
        if prior.len() == levels - 1 {
            let j = levels - 1;
            let row = candidate_row(table, j);
            lemma_first_fresh(row, drafts[j], prior, 0);
            assert forall|y: int| 0 <= y < 16 implies #[trigger] row[y] == table[j * 16 + y] by {
            }
            assert forall|y: int| 0 <= y < 16 implies (#[trigger] usable(drafts, table, b, j, y))
                == (row[y] != drafts[j] && !prior.contains(row[y])) by {
                assert(row[y] == table[j * 16 + y]);
                assert forall|i: int| 0 <= i < j implies b[i] == prior[i] by {
                }
                if prior.contains(row[y]) {
                    let i = choose|i: int| 0 <= i < prior.len() && prior[i] == row[y];
                    assert(b[i] == row[y]);
                }
            }
            assert forall|i: int| 0 <= i < b.len() implies #[trigger] best_taken(
                drafts,
                table,
                b,
                i,
            ) by {
                if i < prior.len() {
                    assert(best_taken(drafts, table, prior, i));
                    let c = choose|c: int| #[trigger]
                        usable(drafts, table, prior, i, c) && 0 <= c < 16 && prior[i] == table[i * 16
                            + c] && forall|d: int|
                            0 <= d < c ==> !#[trigger] usable(drafts, table, prior, i, d);
                    assert(b[i] == prior[i]);
                    assert forall|d: int| 0 <= d < 16 implies usable(drafts, table, b, i, d)
                        == #[trigger] usable(drafts, table, prior, i, d) by {
                        assert forall|x: int| 0 <= x < i implies b[x] == prior[x] by {
                        }
                        if usable(drafts, table, b, i, d) {
                            assert forall|x: int| 0 <= x < i implies #[trigger] prior[x] != table[i
                                * 16 + d] by {
                                assert(b[x] != table[i * 16 + d]);
                            }
                        }
                    }
                    assert(usable(drafts, table, prior, i, c));
                    assert(usable(drafts, table, b, i, c));
                    assert forall|d: int| 0 <= d < c implies !#[trigger] usable(
                        drafts,
                        table,
                        b,
                        i,
                        d,
                    ) by {
                        assert(!usable(drafts, table, prior, i, d));
                    }
                } else {
                    let t = b[i];
                    let c = choose|c: int|
                        0 <= c < row.len() && #[trigger] row[c] == t && t != drafts[j]
                            && !prior.contains(t) && forall|y: int|
                            0 <= y < c ==> (#[trigger] row[y] == drafts[j] || prior.contains(
                                row[y],
                            ));
                    assert(usable(drafts, table, b, j, c));
                    assert forall|d: int| 0 <= d < c implies !#[trigger] usable(
                        drafts,
                        table,
                        b,
                        j,
                        d,
                    ) by {
                        assert(row[d] == drafts[j] || prior.contains(row[d]));
                    }
                }
            }
            if b.len() < levels {
                assert forall|c: int| 0 <= c < 16 implies !#[trigger] usable(
                    drafts,
                    table,
                    b,
                    b.len() as int,
                    c,
                ) by {
                    assert(row[c] == drafts[j] || prior.contains(row[c]));
                }
            }
        } else {
            assert(b == prior);
        }
    }
}

/// The tokens on the way from the root to column `c`.
pub open spec fn spelled(tokens: Seq<u32>, parent: Seq<i32>, c: int) -> Seq<u32>
    decreases c,
{
    if c <= 0 || parent[c] < 0 || parent[c] >= c {
        seq![tokens[c]]
    } else {
        spelled(tokens, parent, parent[c] as int).push(tokens[c])
    }
}

/// A tree of two branches spells the chain on its first branch and the other tokens on its second:
/// both go out from the committed token, and neither has a token of the other.
pub proof fn law_two_branches_spell_their_tokens(
    committed: u32,
    chain: Seq<u32>,
    b: Seq<u32>,
    k: int,
)
    requires
        1 + chain.len() + b.len() <= i32::MAX,
        0 <= k,
    ensures
        k <= chain.len() ==> spelled(
            tree_tokens(committed, chain, b),
            tree_parent(chain.len() as int, b.len() as int),
            k,
        ) == seq![committed] + chain.take(k),
        1 <= k <= b.len() ==> spelled(
            tree_tokens(committed, chain, b),
            tree_parent(chain.len() as int, b.len() as int),
            chain.len() + k,
        ) == seq![committed] + b.take(k),
    decreases k,
{
    let tokens = tree_tokens(committed, chain, b);
    let parent = tree_parent(chain.len() as int, b.len() as int);
    if k == 0 {
        assert(seq![committed] + chain.take(0) =~= seq![committed]);
        assert(tokens[0] == committed);
    } else {
        law_two_branches_spell_their_tokens(committed, chain, b, k - 1);
        if k <= chain.len() {
            assert(tokens[k] == chain[k - 1]);
            assert(parent[k] == k - 1);
            assert(seq![committed] + chain.take(k) =~= (seq![committed] + chain.take(k - 1)).push(
                chain[k - 1],
            ));
        }
        if k <= b.len() {
            let c = chain.len() + k;
            assert(tokens[c] == b[k - 1]);
            assert(seq![committed] + b.take(k) =~= (seq![committed] + b.take(k - 1)).push(b[k - 1]));
            if k == 1 {
                assert(parent[c] == 0);
                assert(seq![committed] + b.take(0) =~= seq![committed]);
                assert(spelled(tokens, parent, 0) =~= seq![committed]);
            } else {
                assert(parent[c] == c - 1);
            }
        }
    }
}

} // verus!
