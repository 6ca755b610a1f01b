//! The vocabulary: the bytes of each token, and a byte trie over them.

use std::collections::HashMap;

use vstd::prelude::*;

use crate::json_schema::bytes;

verus! {

/// One node of the trie.
#[derive(Debug)]
pub struct TrieNode {
    pub children: Vec<(u8, usize)>,
    pub token: Option<u32>,
}

/// Token bytes by id, and the trie of all of them.
pub struct Vocab {
    pub nodes: Vec<TrieNode>,
    pub by_id: HashMap<u32, Vec<u8>>,
    /// The bytes that lead from the root to each node.
    pub paths: Ghost<Seq<Seq<u8>>>,
}

/// A list of token ids with their bytes.
pub type Pieces = Seq<(u32, Seq<u8>)>;

/// Contents of a list of pieces.
pub open spec fn pieces_view(p: Seq<(u32, Vec<u8>)>) -> Pieces {
    Seq::new(p.len(), |i: int| (p[i].0, p[i].1@))
}

/// Bytes of token `id`: those of the last piece with this id that has any.
pub open spec fn bytes_of(pieces: Pieces, id: u32) -> Option<Seq<u8>>
    decreases pieces.len(),
{
    if pieces.len() == 0 {
        None
    } else if pieces.last().0 == id && pieces.last().1.len() > 0 {
        Some(pieces.last().1)
    } else {
        bytes_of(pieces.drop_last(), id)
    }
}

/// Token that the bytes `w` stand for in the trie: the last piece with these bytes. No bytes
/// stand for no token.
pub open spec fn token_of(pieces: Pieces, w: Seq<u8>) -> Option<u32>
    decreases pieces.len(),
{
    if pieces.len() == 0 || w.len() == 0 {
        None
    } else if pieces.last().1 == w {
        Some(pieces.last().0)
    } else {
        token_of(pieces.drop_last(), w)
    }
}

/// One more than the largest id.
pub open spec fn size_of_vocab(pieces: Pieces) -> int
    decreases pieces.len(),
{
    if pieces.len() == 0 {
        0
    } else {
        let rest = size_of_vocab(pieces.drop_last());
        let here = pieces.last().0 + 1;
        if here > rest {
            here
        } else {
            rest
        }
    }
}

/// The smaller of `n` and the largest `usize`.
pub open spec fn to_usize(n: int) -> int {
    if n <= usize::MAX {
        n
    } else {
        usize::MAX as int
    }
}

/// There is an edge from node `p` to node `c`.
pub open spec fn edge(nodes: Seq<TrieNode>, p: int, b: u8, c: int) -> bool {
    exists|k: int|
        0 <= k < nodes[p].children@.len() && (#[trigger] nodes[p].children@[k]).0 == b
            && nodes[p].children@[k].1 == c
}

/// The children of node `p` lie behind it, and extend its path by their byte.
pub open spec fn children_wf(nodes: Seq<TrieNode>, paths: Seq<Seq<u8>>, p: int) -> bool {
    forall|k: int|
        0 <= k < nodes[p].children@.len() ==> {
            let c = #[trigger] nodes[p].children@[k];
            p < c.1 < nodes.len() && paths[c.1 as int] == paths[p].push(c.0)
        }
}

/// Node `n` hangs below another node.
pub open spec fn hangs(nodes: Seq<TrieNode>, paths: Seq<Seq<u8>>, n: int) -> bool {
    exists|p: int|
        0 <= p < n && paths[n].len() > 0 && #[trigger] paths[p] == paths[n].drop_last() && edge(
            nodes,
            p,
            paths[n].last(),
            n,
        )
}

/// The nodes are a tree, and `paths` are the paths from its root.
pub open spec fn trie_wf(nodes: Seq<TrieNode>, paths: Seq<Seq<u8>>) -> bool {
    &&& nodes.len() == paths.len()
    &&& nodes.len() > 0
    &&& paths[0].len() == 0
    &&& forall|p: int| 0 <= p < nodes.len() ==> #[trigger] children_wf(nodes, paths, p)
    &&& forall|n: int| 0 < n < nodes.len() ==> #[trigger] hangs(nodes, paths, n)
    &&& forall|i: int, j: int|
        0 <= i < nodes.len() && 0 <= j < nodes.len() && paths[i] == paths[j] ==> i == j
}

/// The bytes `w` lead to node `n`.
pub open spec fn leads(paths: Seq<Seq<u8>>, w: Seq<u8>, n: int) -> bool {
    0 <= n < paths.len() && paths[n] == w
}

/// The trie holds exactly the tokens of `pieces`.
pub open spec fn holds(nodes: Seq<TrieNode>, paths: Seq<Seq<u8>>, pieces: Pieces) -> bool {
    &&& forall|n: int|
        0 <= n < nodes.len() ==> #[trigger] nodes[n].token == token_of(pieces, paths[n])
    &&& forall|w: Seq<u8>|
        #[trigger] token_of(pieces, w) is Some ==> exists|n: int| leads(paths, w, n)
}

/// The table holds exactly the bytes of the tokens.
pub open spec fn table_holds(m: Map<u32, Vec<u8>>, pieces: Pieces) -> bool {
    forall|id: u32|
        #![trigger m.contains_key(id)]
        #![trigger bytes_of(pieces, id)]
        m.contains_key(id) == (bytes_of(pieces, id) is Some) && (m.contains_key(id) ==> m[id]@
            == bytes_of(pieces, id)->0)
}

impl Vocab {
    pub open spec fn wf(&self, pieces: Pieces) -> bool {
        &&& trie_wf(self.nodes@, self.paths@)
        &&& holds(self.nodes@, self.paths@, pieces)
        &&& table_holds(self.by_id@, pieces)
    }
}

/// A child of node `p` under byte `b`.
fn child_of(nodes: &Vec<TrieNode>, p: usize, b: u8) -> (r: Option<usize>)
    requires
        p < nodes.len(),
    ensures
        r matches Some(c) ==> edge(nodes@, p as int, b, c as int),
        r is None ==> forall|c: int| !edge(nodes@, p as int, b, c),
{
    let children = &nodes[p].children;
    let mut k: usize = 0;
    while k < children.len()
        invariant
            p < nodes.len(),
            children == nodes@[p as int].children,
            k <= children.len(),
            forall|j: int| 0 <= j < k ==> (#[trigger] children@[j]).0 != b,
        decreases children.len() - k,
    {
        if children[k].0 == b {
            return Some(children[k].1);
        }
        k += 1;
    }
    None
}

/// A node whose path extends that of `p` by `b` is a child of `p` under `b`.
proof fn lemma_child_by_path(nodes: Seq<TrieNode>, paths: Seq<Seq<u8>>, p: int, b: u8, n: int)
    requires
        trie_wf(nodes, paths),
        0 <= p < nodes.len(),
        0 <= n < nodes.len(),
        paths[n] == paths[p].push(b),
    ensures
        edge(nodes, p, b, n),
        p < n,
{
    assert(n != 0);
    assert(hangs(nodes, paths, n));
    let q = choose|q: int|
        0 <= q < n && paths[n].len() > 0 && #[trigger] paths[q] == paths[n].drop_last() && edge(
            nodes,
            q,
            paths[n].last(),
            n,
        );
    assert(paths[n].drop_last() =~= paths[p]);
    assert(q == p);
}

/// Adds a child of node `p` under byte `b`.
fn add_child(nodes: &mut Vec<TrieNode>, Ghost(paths): Ghost<Seq<Seq<u8>>>, p: usize, b: u8) -> (r:
    (usize, Ghost<Seq<Seq<u8>>>))
    requires
        trie_wf(old(nodes)@, paths),
        p < old(nodes).len(),
        forall|c: int| !edge(old(nodes)@, p as int, b, c),
    ensures
        trie_wf(final(nodes)@, r.1@),
        r.0 == old(nodes).len(),
        final(nodes)@.len() == old(nodes)@.len() + 1,
        r.1@ == paths.push(paths[p as int].push(b)),
        final(nodes)@[r.0 as int].token is None,
        forall|i: int|
            0 <= i < old(nodes).len() ==> (#[trigger] final(nodes)@[i]).token == old(nodes)@[i].token,
{
    let n: usize = nodes.len();
    let ghost before = nodes@;
    let ghost next = paths.push(paths[p as int].push(b));
    nodes.push(TrieNode { children: Vec::new(), token: None });
    nodes[p].children.push((b, n));
    let ghost after = nodes@;
    proof {
        assert(after.len() == before.len() + 1);
        assert(forall|i: int| 0 <= i < n && i != p ==> after[i] == before[i]);
        assert(after[p as int].children@ =~= before[p as int].children@.push((b, n)));
        assert forall|q: int| 0 <= q < after.len() implies #[trigger] children_wf(after, next, q) by {
            if q < n {
                assert(children_wf(before, paths, q));
            }
        }
        assert forall|m: int| 0 < m < after.len() implies #[trigger] hangs(after, next, m) by {
            if m < n {
                assert(hangs(before, paths, m));
                let q = choose|q: int|
                    0 <= q < m && paths[m].len() > 0 && #[trigger] paths[q] == paths[m].drop_last()
                        && edge(before, q, paths[m].last(), m);
                let k = choose|k: int|
                    0 <= k < before[q].children@.len() && (#[trigger] before[q].children@[k]).0
                        == paths[m].last() && before[q].children@[k].1 == m;
                assert(after[q].children@[k] == before[q].children@[k]);
                assert(next[q] == next[m].drop_last());
            } else {
                let k = before[p as int].children@.len() as int;
                assert(after[p as int].children@[k] == (b, n));
                assert(next[m].drop_last() =~= paths[p as int]);
                assert(next[p as int] == next[m].drop_last());
            }
        }
        assert forall|i: int, j: int|
            0 <= i < after.len() && 0 <= j < after.len() && next[i] == next[j] implies i == j by {
            if i < n && j == n {
                lemma_child_by_path(before, paths, p as int, b, i);
            }
            if j < n && i == n {
                lemma_child_by_path(before, paths, p as int, b, j);
            }
        }
    }
    (n, Ghost(next))
}

/// The node that `bytes` lead to, added where it is missing.
fn insert_path(nodes: &mut Vec<TrieNode>, Ghost(paths): Ghost<Seq<Seq<u8>>>, bytes: &Vec<u8>) -> (r:
    (usize, Ghost<Seq<Seq<u8>>>))
    requires
        trie_wf(old(nodes)@, paths),
    ensures
        trie_wf(final(nodes)@, r.1@),
        leads(r.1@, bytes@, r.0 as int),
        paths.is_prefix_of(r.1@),
        forall|i: int|
            0 <= i < old(nodes).len() ==> (#[trigger] final(nodes)@[i]).token == old(nodes)@[i].token,
        forall|i: int|
            old(nodes).len() <= i < final(nodes).len() ==> (#[trigger] final(nodes)@[i]).token is None,
{
    let ghost first = nodes@;
    let mut known: Ghost<Seq<Seq<u8>>> = Ghost(paths);
    let mut cur: usize = 0;
    let mut i: usize = 0;
    assert(bytes@.subrange(0, 0) =~= paths[0]);
    while i < bytes.len()
        invariant
            i <= bytes.len(),
            trie_wf(nodes@, known@),
            leads(known@, bytes@.subrange(0, i as int), cur as int),
            paths.is_prefix_of(known@),
            first.len() <= nodes@.len(),
            first.len() == paths.len(),
            forall|j: int|
                0 <= j < first.len() ==> (#[trigger] nodes@[j]).token == first[j].token,
            forall|j: int| first.len() <= j < nodes@.len() ==> (#[trigger] nodes@[j]).token is None,
        decreases bytes.len() - i,
    {
        let b: u8 = bytes[i];
        assert(bytes@.subrange(0, i + 1) =~= bytes@.subrange(0, i as int).push(b));
        match child_of(nodes, cur, b) {
            Some(n) => {
                assert(children_wf(nodes@, known@, cur as int));
                cur = n;
            },
            None => {
                let (n, Ghost(next)) = add_child(nodes, Ghost(known@), cur, b);
                proof {
                    assert(paths.is_prefix_of(next)) by {
                        assert(next.subrange(0, paths.len() as int) =~= known@.subrange(
                            0,
                            paths.len() as int,
                        ));
                    }
                    known@ = next;
                }
                cur = n;
            },
        }
        i += 1;
    }
    assert(bytes@.subrange(0, bytes@.len() as int) =~= bytes@);
    (cur, known)
}

/// The trie and the table with one more piece, and the vocabulary size.
fn add_piece(v: &mut Vocab, id: u32, bytes: Vec<u8>, Ghost(pieces): Ghost<Pieces>)
    requires
        old(v).wf(pieces),
    ensures
        final(v).wf(pieces.push((id, bytes@))),
{
    broadcast use vstd::std_specs::hash::group_hash_axioms;

    let ghost now = pieces.push((id, bytes@));
    assert(now.drop_last() =~= pieces);
    assert(now.last() == (id, bytes@));
    if bytes.len() == 0 {
        assert forall|w: Seq<u8>| token_of(now, w) == #[trigger] token_of(pieces, w) by {}
        assert forall|w: Seq<u8>| #[trigger] token_of(now, w) is Some implies exists|n: int|
            leads(v.paths@, w, n) by {
            assert(token_of(pieces, w) is Some);
        }
        assert forall|k: u32| bytes_of(now, k) == #[trigger] bytes_of(pieces, k) by {}
        assert(table_holds(v.by_id@, now)) by {
            assert forall|k: u32|
                v.by_id@.contains_key(k) == (#[trigger] bytes_of(now, k) is Some) && (
                v.by_id@.contains_key(k) ==> v.by_id@[k]@ == bytes_of(now, k)->0) by {
                assert(bytes_of(now, k) == bytes_of(pieces, k));
            }
        }
        return;
    }
    let ghost before = v.nodes@;
    let ghost paths = v.paths@;
    let (n, Ghost(next)) = insert_path(&mut v.nodes, Ghost(v.paths@), &bytes);
    let ghost mid = v.nodes@;
    v.nodes[n].token = Some(id);
    v.paths = Ghost(next);
    let ghost after = v.nodes@;
    proof {
        assert(after.len() == mid.len());
        assert(forall|i: int| 0 <= i < mid.len() ==> (#[trigger] after[i]).children == mid[i].children);
        assert forall|p: int| 0 <= p < after.len() implies #[trigger] children_wf(after, next, p) by {
            assert(children_wf(mid, next, p));
            assert(after[p].children == mid[p].children);
        }
        assert forall|m: int| 0 < m < after.len() implies #[trigger] hangs(after, next, m) by {
            assert(hangs(mid, next, m));
            let q = choose|q: int|
                0 <= q < m && next[m].len() > 0 && #[trigger] next[q] == next[m].drop_last()
                    && edge(mid, q, next[m].last(), m);
            let k = choose|k: int|
                0 <= k < mid[q].children@.len() && (#[trigger] mid[q].children@[k]).0
                    == next[m].last() && mid[q].children@[k].1 == m;
            assert(after[q].children == mid[q].children);
            assert(after[q].children@[k] == mid[q].children@[k]);
            assert(next[q] == next[m].drop_last());
        }
        assert(trie_wf(after, next));
        assert forall|i: int| 0 <= i < after.len() implies #[trigger] after[i].token == token_of(
            now,
            next[i],
        ) by {
            if i == n {
                assert(next[i] == bytes@);
            } else {
                assert(next[i] != bytes@);
                assert(token_of(now, next[i]) == token_of(pieces, next[i]));
                assert(after[i].token == mid[i].token);
                if i < before.len() {
                    assert(next[i] == paths[i]);
                    assert(before[i].token == token_of(pieces, paths[i]));
                } else {
                    if token_of(pieces, next[i]) is Some {
                        let j = choose|j: int| leads(paths, next[i], j);
                        assert(next[j] == paths[j]);
                        assert(false);
                    }
                }
            }
        }
        assert forall|w: Seq<u8>| #[trigger] token_of(now, w) is Some implies exists|j: int|
            leads(next, w, j) by {
            if w == bytes@ {
                assert(leads(next, w, n as int));
            } else {
                assert(token_of(pieces, w) is Some);
                let j = choose|j: int| leads(paths, w, j);
                assert(next[j] == paths[j]);
                assert(leads(next, w, j));
            }
        }
        assert(holds(after, next, now));
    }
    let ghost table = v.by_id@;
    v.by_id.insert(id, bytes);
    assert(table_holds(v.by_id@, now)) by {
        assert forall|k: u32|
            v.by_id@.contains_key(k) == (#[trigger] bytes_of(now, k) is Some) && (
            v.by_id@.contains_key(k) ==> v.by_id@[k]@ == bytes_of(now, k)->0) by {
            if k != id {
                assert(bytes_of(now, k) == bytes_of(pieces, k));
                assert(table.contains_key(k) == v.by_id@.contains_key(k));
            }
        }
    }
}

impl Vocab {
    /// The vocabulary without any token.
    pub fn empty() -> (v: Vocab)
        ensures
            v.wf(Seq::empty()),
    {
        broadcast use vstd::std_specs::hash::group_hash_axioms;

        let mut nodes: Vec<TrieNode> = Vec::new();
        nodes.push(TrieNode { children: Vec::new(), token: None });
        let ghost paths: Seq<Seq<u8>> = seq![Seq::empty()];
        let v = Vocab { nodes, by_id: HashMap::new(), paths: Ghost(paths) };
        assert(forall|w: Seq<u8>| token_of(Seq::empty(), w) is None);
        assert(trie_wf(v.nodes@, v.paths@));
        v
    }

    /// Builds the trie and the table, and counts the ids up to the largest. Pieces without bytes
    /// are skipped: such a token never advances the machine. Where two pieces have the same
    /// bytes, the trie holds the id of the last one.
    pub fn build(pieces: Vec<(u32, Vec<u8>)>) -> (r: (Vocab, usize))
        ensures
            r.0.wf(pieces_view(pieces@)),
            r.1 == to_usize(size_of_vocab(pieces_view(pieces@))),
    {
        let mut v = Vocab::empty();
        let mut size: usize = 0;
        let mut i: usize = 0;
        let ghost all = pieces_view(pieces@);
        assert(all.subrange(0, 0) =~= Seq::empty());
        while i < pieces.len()
            invariant
                i <= pieces.len(),
                all == pieces_view(pieces@),
                v.wf(all.subrange(0, i as int)),
                size == to_usize(size_of_vocab(all.subrange(0, i as int))),
            decreases pieces.len() - i,
        {
            let id: u32 = pieces[i].0;
            let bytes = pieces[i].1.clone();
            let ghost done = all.subrange(0, i as int);
            assert(all.subrange(0, i + 1) =~= done.push((id, bytes@)));
            assert(all.subrange(0, i + 1).drop_last() =~= done);
            let here: usize = (id as usize).saturating_add(1);
            if here > size {
                size = here;
            }
            add_piece(&mut v, id, bytes, Ghost(done));
            i += 1;
        }
        assert(all.subrange(0, all.len() as int) =~= all);
        (v, size)
    }
}


/// Piece `i` is the last with these bytes.
pub open spec fn last_with_bytes(pieces: Pieces, w: Seq<u8>, i: int) -> bool {
    0 <= i < pieces.len() && pieces[i].1 == w && forall|j: int|
        i < j < pieces.len() ==> (#[trigger] pieces[j]).1 != w
}

/// Piece `i` is the last with this id that has bytes.
pub open spec fn last_with_id(pieces: Pieces, id: u32, i: int) -> bool {
    0 <= i < pieces.len() && pieces[i].0 == id && pieces[i].1.len() > 0 && forall|j: int|
        i < j < pieces.len() ==> (#[trigger] pieces[j]).0 != id || pieces[j].1.len() == 0
}

/// Bytes stand for the id of the last piece that has them, and for none where no piece has; nothing
/// stands for no bytes.
pub proof fn law_the_last_piece_with_the_bytes_counts(pieces: Pieces, w: Seq<u8>)
    ensures
        w.len() == 0 ==> token_of(pieces, w) is None,
        w.len() > 0 && (forall|i: int| 0 <= i < pieces.len() ==> (#[trigger] pieces[i]).1 != w)
            ==> token_of(pieces, w) is None,
        forall|i: int| #[trigger]
            last_with_bytes(pieces, w, i) && w.len() > 0 ==> token_of(pieces, w) == Some(
                pieces[i].0,
            ),
    decreases pieces.len(),
{
    if pieces.len() > 0 && w.len() > 0 {
        let rest = pieces.drop_last();
        let last = pieces.len() - 1;
        law_the_last_piece_with_the_bytes_counts(rest, w);
        if pieces.last().1 != w {
            if forall|i: int| 0 <= i < pieces.len() ==> (#[trigger] pieces[i]).1 != w {
                assert forall|i: int| 0 <= i < rest.len() implies (#[trigger] rest[i]).1 != w by {
                    assert(rest[i] == pieces[i]);
                }
            }
            assert forall|i: int| #[trigger] last_with_bytes(pieces, w, i) implies token_of(
                pieces,
                w,
            ) == Some(pieces[i].0) by {
                assert forall|j: int| i < j < rest.len() implies (#[trigger] rest[j]).1 != w by {
                    assert(rest[j] == pieces[j]);
                }
                assert(last_with_bytes(rest, w, i));
            }
        } else {
            assert(pieces[last].1 == w);
            assert forall|i: int| #[trigger] last_with_bytes(pieces, w, i) implies i == last by {
                if i < last {
                    assert(pieces[last].1 != w);
                }
            }
        }
    }
}

/// The bytes of an id are those of the last piece of that id that has some; without such a piece it
/// has none.
pub proof fn law_the_last_bytes_of_an_id_count(pieces: Pieces, id: u32)
    ensures
        (forall|i: int|
            0 <= i < pieces.len() ==> (#[trigger] pieces[i]).0 != id || pieces[i].1.len() == 0)
            ==> bytes_of(pieces, id) is None,
        forall|i: int| #[trigger]
            last_with_id(pieces, id, i) ==> bytes_of(pieces, id) == Some(pieces[i].1),
    decreases pieces.len(),
{
    if pieces.len() > 0 {
        let rest = pieces.drop_last();
        let last = pieces.len() - 1;
        law_the_last_bytes_of_an_id_count(rest, id);
        if !(pieces.last().0 == id && pieces.last().1.len() > 0) {
            if forall|i: int|
                0 <= i < pieces.len() ==> (#[trigger] pieces[i]).0 != id || pieces[i].1.len() == 0 {
                assert forall|i: int| 0 <= i < rest.len() implies (#[trigger] rest[i]).0 != id
                    || rest[i].1.len() == 0 by {
                    assert(rest[i] == pieces[i]);
                }
            }
            assert forall|i: int| #[trigger] last_with_id(pieces, id, i) implies bytes_of(
                pieces,
                id,
            ) == Some(pieces[i].1) by {
                assert forall|j: int| i < j < rest.len() implies (#[trigger] rest[j]).0 != id
                    || rest[j].1.len() == 0 by {
                    assert(rest[j] == pieces[j]);
                }
                assert(last_with_id(rest, id, i));
            }
        } else {
            assert(pieces[last].0 == id && pieces[last].1.len() > 0);
            assert forall|i: int| #[trigger] last_with_id(pieces, id, i) implies i == last by {
                if i < last {
                    assert(pieces[last].0 != id || pieces[last].1.len() == 0);
                }
            }
        }
    }
}

/// The size of a vocabulary is one more than its largest id: every id is below it, and one is just
/// below it.
pub proof fn law_the_size_covers_every_id(pieces: Pieces)
    ensures
        forall|i: int| 0 <= i < pieces.len() ==> (#[trigger] pieces[i]).0 < size_of_vocab(pieces),
        pieces.len() == 0 ==> size_of_vocab(pieces) == 0,
        pieces.len() > 0 ==> exists|i: int|
            0 <= i < pieces.len() && (#[trigger] pieces[i]).0 + 1 == size_of_vocab(pieces),
    decreases pieces.len(),
{
    if pieces.len() > 0 {
        let rest = pieces.drop_last();
        law_the_size_covers_every_id(rest);
        assert forall|i: int| 0 <= i < pieces.len() implies (#[trigger] pieces[i]).0 < size_of_vocab(
            pieces,
        ) by {
            if i < rest.len() {
                assert(rest[i] == pieces[i]);
            }
        }
        if pieces.last().0 + 1 > size_of_vocab(rest) {
            assert(pieces[pieces.len() - 1].0 + 1 == size_of_vocab(pieces));
        } else {
            let i = choose|i: int|
                0 <= i < rest.len() && (#[trigger] rest[i]).0 + 1 == size_of_vocab(rest);
            assert(pieces[i] == rest[i]);
        }
    }
}

} // verus!
