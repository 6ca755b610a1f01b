//! Accepting drafts: the walk of a draft tree, and the accepted prefix of a chain.

use vstd::prelude::*;

verus! {

/// The lowest child of `cur`, from column `c` on, that carries token `want`.
pub open spec fn first_child(parent: Seq<i32>, tokens: Seq<u32>, cur: int, want: u32, c: int) -> Option<
    int,
>
    decreases parent.len() - c,
{
    if c < 1 || c >= parent.len() {
        None
    } else if parent[c] == cur && tokens[c] == want {
        Some(c)
    } else {
        first_child(parent, tokens, cur, want, c + 1)
    }
}

/// The child that the walk descends into from `cur`.
pub open spec fn descends(
    parent: Seq<i32>,
    tokens: Seq<u32>,
    preds: Seq<u32>,
    cur: int,
) -> Option<int> {
    first_child(parent, tokens, cur, preds[cur], 1)
}

/// `path` is the walk from the root that follows the target's choice at each node, as far as
/// there is a child that carries it.
pub open spec fn walks(
    parent: Seq<i32>,
    tokens: Seq<u32>,
    preds: Seq<u32>,
    path: Seq<usize>,
) -> bool {
    &&& path.len() > 0
    &&& path[0] == 0
    &&& forall|k: int|
        0 <= k < path.len() - 1 ==> #[trigger] descends(parent, tokens, preds, path[k] as int)
            == Some(path[k + 1] as int)
    &&& descends(parent, tokens, preds, path.last() as int) is None
}

/// Every column but the root has a parent among the columns.
pub open spec fn tree_ok(parent: Seq<i32>) -> bool {
    parent.len() > 0 && forall|c: int|
        1 <= c < parent.len() ==> 0 <= #[trigger] parent[c] < parent.len()
}

pub proof fn lemma_first_child(parent: Seq<i32>, tokens: Seq<u32>, cur: int, want: u32, c: int)
    requires
        1 <= c,
    ensures
        first_child(parent, tokens, cur, want, c) matches Some(x) ==> c <= x < parent.len()
            && parent[x] == cur && tokens[x] == want && (forall|d: int|
            c <= d < x ==> !(#[trigger] parent[d] == cur && tokens[d] == want)),
        first_child(parent, tokens, cur, want, c) is None ==> forall|d: int|
            c <= d < parent.len() ==> !(#[trigger] parent[d] == cur && tokens[d] == want),
    decreases parent.len() - c,
{
    if c < parent.len() && !(parent[c] == cur && tokens[c] == want) {
        lemma_first_child(parent, tokens, cur, want, c + 1);
    }
}

fn find_child(parent: &[i32], tokens: &[u32], cur: usize, want: u32) -> (r: Option<usize>)
    requires
        parent@.len() <= tokens@.len(),
        parent@.len() <= i32::MAX,
    ensures
        match first_child(parent@, tokens@, cur as int, want, 1) {
            Some(x) => r == Some(x as usize),
            None => r is None,
        },
        r matches Some(x) ==> 1 <= x < parent@.len(),
{
    let mut c: usize = 1;
    while c < parent.len()
        invariant
            1 <= c,
            parent@.len() <= tokens@.len(),
            parent@.len() <= i32::MAX,
            first_child(parent@, tokens@, cur as int, want, 1) == first_child(
                parent@,
                tokens@,
                cur as int,
                want,
                c as int,
            ),
        decreases parent.len() - c,
    {
        if parent[c] >= 0 && parent[c] as usize == cur && tokens[c] == want {
            return Some(c);
        }
        c += 1;
    }
    None
}

/// A list of distinct columns below `n` has at most `n` entries.
proof fn lemma_short(path: Seq<usize>, n: int)
    requires
        0 <= n,
        path.no_duplicates(),
        forall|i: int| 0 <= i < path.len() ==> 0 <= #[trigger] path[i] < n,
    ensures
        path.len() <= n,
{
    let s = path.map_values(|x: usize| x as int);
    assert(s.no_duplicates()) by {
        assert forall|i: int, j: int| 0 <= i < s.len() && 0 <= j < s.len() && i != j implies s[i]
            != s[j] by {
            assert(path[i] != path[j]);
        }
    }
    s.unique_seq_to_set();
    vstd::set_lib::lemma_int_range(0, n);
    let r = vstd::set_lib::set_int_range(0, n);
    assert(s.to_set().subset_of(r)) by {
        assert forall|x: int| s.to_set().contains(x) implies r.contains(x) by {
            let i = choose|i: int| 0 <= i < s.len() && s[i] == x;
            assert(0 <= path[i] < n);
        }
    }
    vstd::set_lib::lemma_len_subset(s.to_set(), r);
}

/// Walks the draft tree along the target's choices. `parent[c]` is the parent of column `c`,
/// `tokens[c]` its draft token and `preds[c]` what the target chooses behind the path that ends
/// in `c`; column 0 is the committed token. Returns the accepted columns, root first, and the
/// tokens to emit: the target's choice behind each of them. Among several children with the
/// chosen token the lowest is taken.
pub fn tree_accept_walk(parent: &[i32], tokens: &[u32], preds: &[u32]) -> (r: (
    Vec<usize>,
    Vec<u32>,
))
    requires
        tree_ok(parent@),
        parent@.len() <= i32::MAX,
        parent@.len() <= tokens@.len(),
        parent@.len() <= preds@.len(),
    ensures
        walks(parent@, tokens@, preds@, r.0@),
        forall|i: int| 0 <= i < r.0@.len() ==> #[trigger] r.0@[i] < parent@.len(),
        r.0@.no_duplicates(),
        r.0@.len() <= parent@.len(),
        r.1@ == Seq::new(r.0@.len(), |k: int| preds@[r.0@[k] as int]),
{
    let mut path: Vec<usize> = Vec::new();
    path.push(0);
    let mut emitted: Vec<u32> = Vec::new();
    let mut cur: usize = 0;
    loop
        invariant
            tree_ok(parent@),
            parent@.len() <= i32::MAX,
            parent@.len() <= tokens@.len(),
            parent@.len() <= preds@.len(),
            path@.len() > 0,
            path@[0] == 0,
            cur == path@.last(),
            cur < parent@.len(),
            path@.len() == emitted@.len() + 1,
            path@.no_duplicates(),
            forall|i: int| 0 <= i < path@.len() ==> #[trigger] path@[i] < parent@.len(),
            forall|i: int| 0 < i < path@.len() ==> path@[i] >= 1 && parent@[#[trigger] path@[i] as int] == path@[i - 1],
            forall|k: int|
                0 <= k < path@.len() - 1 ==> #[trigger] descends(
                    parent@,
                    tokens@,
                    preds@,
                    path@[k] as int,
                ) == Some(path@[k + 1] as int),
            emitted@ =~= Seq::new(
                emitted@.len(),
                |k: int| preds@[path@[k] as int],
            ),
        decreases parent@.len() - path@.len(),
    {
        proof {
            lemma_short(path@, parent@.len() as int);
        }
        let want: u32 = preds[cur];
        emitted.push(want);
        proof {
            lemma_first_child(parent@, tokens@, cur as int, want, 1);
        }
        match find_child(parent, tokens, cur, want) {
            Some(c) => {
                let ghost before = path@;
                assert forall|i: int| 0 <= i < before.len() implies before[i] != c by {
                    if before[i] == c {
                        assert(i > 0);
                        assert(parent@[before[i] as int] == before[i - 1]);
                        assert(before[i - 1] == before.last());
                    }
                }
                path.push(c);
                cur = c;
                proof {
                    lemma_short(path@, parent@.len() as int);
                }
                assert forall|k: int| 0 <= k < path@.len() - 1 implies #[trigger] descends(
                    parent@,
                    tokens@,
                    preds@,
                    path@[k] as int,
                ) == Some(path@[k + 1] as int) by {
                    if k < before.len() - 1 {
                        assert(descends(parent@, tokens@, preds@, before[k] as int) == Some(
                            before[k + 1] as int,
                        ));
                    }
                }
            },
            None => {
                assert(path@.len() <= parent@.len());
                return (path, emitted);
            },
        }
    }
}

/// `n` is the length of the longest prefix of `drafts` that the target chose.
pub open spec fn accepted_prefix(drafts: Seq<u32>, preds: Seq<u32>, n: int) -> bool {
    &&& 0 <= n <= drafts.len()
    &&& forall|j: int| 0 <= j < n ==> #[trigger] preds[j] == drafts[j]
    &&& (n < drafts.len() ==> preds[n] != drafts[n])
}

/// Length of the longest prefix of `drafts` that the target chose.
pub fn accept_prefix(drafts: &Vec<u32>, preds: &Vec<u32>) -> (n: usize)
    requires
        drafts@.len() < preds@.len(),
    ensures
        accepted_prefix(drafts@, preds@, n as int),
{
    let mut n: usize = 0;
    while n < drafts.len() && preds[n] == drafts[n]
        invariant
            n <= drafts.len(),
            drafts@.len() < preds@.len(),
            forall|j: int| 0 <= j < n ==> #[trigger] preds@[j] == drafts@[j],
        decreases drafts.len() - n,
    {
        n += 1;
    }
    n
}

/// On a chain (`parent[c] == c - 1`) the walk accepts the longest prefix of the drafts: it ends
/// `n` columns below the root, where the first `n` drafts are the target's choices and the next
/// one is not.
pub proof fn law_chain_walk_accepts_longest_prefix(
    parent: Seq<i32>,
    tokens: Seq<u32>,
    preds: Seq<u32>,
    path: Seq<usize>,
)
    requires
        parent.len() > 0,
        forall|c: int| 1 <= c < parent.len() ==> #[trigger] parent[c] == c - 1,
        tokens.len() == parent.len(),
        walks(parent, tokens, preds, path),
    ensures
        forall|k: int| 0 <= k < path.len() ==> #[trigger] path[k] == k,
        accepted_prefix(tokens.drop_first(), preds, path.len() - 1),
{
    let drafts = tokens.drop_first();
    lemma_chain_path(parent, tokens, preds, path, path.len() as int);
    assert forall|j: int| 0 <= j < path.len() - 1 implies #[trigger] preds[j] == drafts[j] by {
        assert(descends(parent, tokens, preds, path[j] as int) == Some(path[j + 1] as int));
        lemma_first_child(parent, tokens, j, preds[j], 1);
        assert(tokens[j + 1] == preds[j]);
    }
    let last = path.len() - 1;
    lemma_first_child(parent, tokens, last, preds[last], 1);
    if path.len() > 1 {
        assert(descends(parent, tokens, preds, path[last - 1] as int) == Some(
            path[last - 1 + 1] as int,
        ));
        lemma_first_child(parent, tokens, last - 1, preds[last - 1], 1);
    }
    if last < drafts.len() {
        assert(parent[last + 1] == last);
        assert(tokens[last + 1] != preds[last]);
    }
}

proof fn lemma_chain_path(
    parent: Seq<i32>,
    tokens: Seq<u32>,
    preds: Seq<u32>,
    path: Seq<usize>,
    m: int,
)
    requires
        parent.len() > 0,
        forall|c: int| 1 <= c < parent.len() ==> #[trigger] parent[c] == c - 1,
        walks(parent, tokens, preds, path),
        0 <= m <= path.len(),
    ensures
        forall|k: int| 0 <= k < m ==> #[trigger] path[k] == k,
    decreases m,
{
    if m > 0 {
        lemma_chain_path(parent, tokens, preds, path, m - 1);
        if m > 1 {
            let k = m - 2;
            assert(descends(parent, tokens, preds, path[k] as int) == Some(path[k + 1] as int));
            lemma_first_child(parent, tokens, k, preds[k], 1);
            assert(parent[path[k + 1] as int] == k);
        }
    }
}

/// Every emitted token is the target's choice behind the accepted path, and every accepted draft
/// is the token emitted before it: speculation does not change what is generated.
pub proof fn law_accepted_drafts_are_emitted(
    parent: Seq<i32>,
    tokens: Seq<u32>,
    preds: Seq<u32>,
    path: Seq<usize>,
    k: int,
)
    requires
        walks(parent, tokens, preds, path),
        0 <= k < path.len() - 1,
    ensures
        tokens[path[k + 1] as int] == preds[path[k] as int],
        parent[path[k + 1] as int] == path[k],
{
    assert(descends(parent, tokens, preds, path[k] as int) == Some(path[k + 1] as int));
    lemma_first_child(parent, tokens, path[k] as int, preds[path[k] as int], 1);
}


/// Column `to` is a child of column `from` and carries the target's choice behind it.
pub open spec fn chosen_child(
    parent: Seq<i32>,
    tokens: Seq<u32>,
    preds: Seq<u32>,
    from: usize,
    to: usize,
) -> bool {
    1 <= to < parent.len() && parent[to as int] == from && tokens[to as int] == preds[from as int]
}

/// The walk goes on as long as it can, and each step takes the lowest column: from each column it
/// goes to a child that carries the target's choice, no lower one does, and behind its last column
/// none does.
pub proof fn law_the_walk_goes_as_far_as_it_can(
    parent: Seq<i32>,
    tokens: Seq<u32>,
    preds: Seq<u32>,
    path: Seq<usize>,
    k: int,
)
    requires
        walks(parent, tokens, preds, path),
        0 <= k < path.len(),
    ensures
        path[0] == 0,
        k + 1 < path.len() ==> chosen_child(parent, tokens, preds, path[k], path[k + 1]) && (
        forall|d: usize|
            d < path[k + 1] ==> !#[trigger] chosen_child(parent, tokens, preds, path[k], d)),
        k + 1 == path.len() ==> forall|d: usize| !#[trigger]
            chosen_child(parent, tokens, preds, path[k], d),
{
    let from = path[k] as int;
    lemma_first_child(parent, tokens, from, preds[from], 1);
    if k + 1 < path.len() {
        assert(descends(parent, tokens, preds, path[k] as int) == Some(path[k + 1] as int));
        assert forall|d: usize| d < path[k + 1] implies !#[trigger] chosen_child(
            parent,
            tokens,
            preds,
            path[k],
            d,
        ) by {
            if 1 <= d {
                assert(!(parent[d as int] == from && tokens[d as int] == preds[from]));
            }
        }
    } else {
        assert forall|d: usize| !#[trigger] chosen_child(parent, tokens, preds, path[k], d) by {
            if 1 <= d < parent.len() {
                assert(!(parent[d as int] == from && tokens[d as int] == preds[from]));
            }
        }
    }
}

/// Where no two children of a column carry the same token, the walk accepts every draft that could
/// be accepted: any path from the root along the target's choices is a start of it.
pub proof fn law_the_walk_is_the_longest(
    parent: Seq<i32>,
    tokens: Seq<u32>,
    preds: Seq<u32>,
    path: Seq<usize>,
    other: Seq<usize>,
    n: int,
)
    requires
        walks(parent, tokens, preds, path),
        forall|c: int, d: int|
            1 <= c < parent.len() && 1 <= d < parent.len() && c != d && (#[trigger] parent[c])
                == (#[trigger] parent[d]) ==> tokens[c] != tokens[d],
        other.len() > 0,
        other[0] == 0,
        forall|k: int|
            0 <= k < other.len() - 1 ==> #[trigger] chosen_child(
                parent,
                tokens,
                preds,
                other[k],
                other[k + 1],
            ),
        1 <= n <= other.len(),
    ensures
        n <= path.len(),
        path.take(n) == other.take(n),
    decreases n,
{
    if n == 1 {
        assert(path.take(1) =~= other.take(1));
    } else {
        law_the_walk_is_the_longest(parent, tokens, preds, path, other, n - 1);
        let k = n - 2;
        law_the_walk_goes_as_far_as_it_can(parent, tokens, preds, path, k);
        assert(path[k] == path.take(n - 1)[k]);
        assert(other[k] == other.take(n - 1)[k]);
        assert(chosen_child(parent, tokens, preds, other[k], other[k + 1]));
        assert(n <= path.len());
        let (c, d) = (path[k + 1], other[k + 1]);
        assert(parent[c as int] == parent[d as int]);
        assert(c == d);
        assert(path.take(n) =~= path.take(n - 1).push(path[n - 1]));
        assert(other.take(n) =~= other.take(n - 1).push(other[n - 1]));
    }
}

/// The accepted prefix of a chain is the longest one: any number of drafts that are all the
/// target's choices is at most that.
pub proof fn law_the_accepted_prefix_is_the_longest(
    drafts: Seq<u32>,
    preds: Seq<u32>,
    n: int,
    m: int,
)
    requires
        accepted_prefix(drafts, preds, n),
        drafts.len() <= preds.len(),
        0 <= m <= drafts.len(),
    ensures
        (m <= n) == (drafts.take(m) == preds.take(m)),
{
    if m <= n {
        assert forall|j: int| 0 <= j < m implies drafts[j] == preds[j] by {
            assert(preds[j] == drafts[j]);
        }
        assert(drafts.take(m) =~= preds.take(m));
    } else {
        assert(drafts.take(m)[n] == drafts[n]);
        assert(preds.take(m)[n] == preds[n]);
    }
}

} // verus!
