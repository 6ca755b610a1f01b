//! Walking the vocabulary trie with the machine: the tokens that may come next.

use vstd::prelude::*;

use crate::json_schema::bits;
use crate::json_schema::feed;
use crate::json_schema::machine;
use crate::json_schema::machine::FrameView;
use crate::json_schema::roll::Roll;
use crate::json_schema::schema;
use crate::json_schema::schema::{Schema, SchemaView};
use crate::json_schema::state::Machine;
use crate::json_schema::vocab;
use crate::json_schema::vocab::TrieNode;

verus! {

/// Node `n` lies below node `p`.
pub open spec fn under(paths: Seq<Seq<u8>>, p: int, n: int) -> bool {
    &&& 0 <= n < paths.len()
    &&& paths[p].len() < paths[n].len()
    &&& paths[p].is_prefix_of(paths[n])
}

/// The bytes from node `p` to node `n` below it.
pub open spec fn between(paths: Seq<Seq<u8>>, p: int, n: int) -> Seq<u8> {
    paths[n].skip(paths[p].len() as int)
}

/// Node `n` below `p` holds token `t`, and the machine takes the bytes that lead there.
pub open spec fn token_under(
    t: Seq<SchemaView>,
    stack: Seq<FrameView>,
    nodes: Seq<TrieNode>,
    paths: Seq<Seq<u8>>,
    p: int,
    n: int,
    tok: int,
) -> bool {
    &&& under(paths, p, n)
    &&& (nodes[n].token matches Some(x) && x == tok)
    &&& machine::run(t, stack, between(paths, p, n)) is Some
}

/// Some node below `p` holds a token `tok` that the machine takes.
pub open spec fn some_under(
    t: Seq<SchemaView>,
    stack: Seq<FrameView>,
    nodes: Seq<TrieNode>,
    paths: Seq<Seq<u8>>,
    p: int,
    tok: int,
) -> bool {
    exists|n: int| token_under(t, stack, nodes, paths, p, n, tok)
}

/// The child `c` under byte `b` is, or lies above, a node with a token `tok` that the machine
/// takes.
pub open spec fn via_child(
    t: Seq<SchemaView>,
    stack: Seq<FrameView>,
    nodes: Seq<TrieNode>,
    paths: Seq<Seq<u8>>,
    b: u8,
    c: int,
    tok: int,
) -> bool {
    let (next, alive) = machine::feed(t, stack, b);
    alive && ((nodes[c].token matches Some(x) && x == tok) || some_under(
        t,
        next,
        nodes,
        paths,
        c,
        tok,
    ))
}

/// One of the first `k` children of `p` leads to token `tok`.
pub open spec fn via_first(
    t: Seq<SchemaView>,
    stack: Seq<FrameView>,
    nodes: Seq<TrieNode>,
    paths: Seq<Seq<u8>>,
    p: int,
    k: int,
    tok: int,
) -> bool {
    exists|j: int|
        0 <= j < k && via_child(
            t,
            stack,
            nodes,
            paths,
            (#[trigger] nodes[p].children@[j]).0,
            nodes[p].children@[j].1 as int,
            tok,
        )
}

/// Below `p`, every node is a child of `p` or below one.
proof fn lemma_descend(nodes: Seq<TrieNode>, paths: Seq<Seq<u8>>, p: int, n: int) -> (c: int)
    requires
        vocab::trie_wf(nodes, paths),
        0 <= p < nodes.len(),
        under(paths, p, n),
    ensures
        vocab::edge(nodes, p, paths[n][paths[p].len() as int], c),
        c == n || under(paths, c, n),
    decreases n,
{
    assert(n > 0);
    assert(vocab::hangs(nodes, paths, n));
    let q = choose|q: int|
        0 <= q < n && paths[n].len() > 0 && #[trigger] paths[q] == paths[n].drop_last()
            && vocab::edge(nodes, q, paths[n].last(), n);
    if paths[q].len() == paths[p].len() {
        assert(paths[q] =~= paths[p]);
        assert(q == p);
        n
    } else {
        assert(under(paths, p, q));
        let c = lemma_descend(nodes, paths, p, q);
        assert(paths[q][paths[p].len() as int] == paths[n][paths[p].len() as int]);
        assert(c == q || under(paths, c, q));
        assert(under(paths, c, n));
        c
    }
}

/// The bytes below `p` start with the byte of the child on the way.
proof fn lemma_between_child(
    t: Seq<SchemaView>,
    stack: Seq<FrameView>,
    nodes: Seq<TrieNode>,
    paths: Seq<Seq<u8>>,
    p: int,
    b: u8,
    c: int,
    n: int,
)
    requires
        0 <= p < paths.len(),
        0 <= c < paths.len(),
        paths[c] == paths[p].push(b),
        c == n || under(paths, c, n),
    ensures
        under(paths, p, n),
        machine::run(t, stack, between(paths, p, n)) is Some <==> machine::feed(t, stack, b).1 && (
        c == n || machine::run(t, machine::feed(t, stack, b).0, between(paths, c, n)) is Some),
{
    let w = between(paths, p, n);
    assert(paths[n].subrange(0, paths[c].len() as int) =~= paths[c]);
    assert(paths[n][paths[p].len() as int] == b) by {
        assert(paths[c][paths[p].len() as int] == b);
        assert(paths[n].subrange(0, paths[c].len() as int)[paths[p].len() as int] == b);
    }
    assert(paths[p] =~= paths[n].subrange(0, paths[p].len() as int)) by {
        assert forall|i: int| 0 <= i < paths[p].len() implies paths[p][i] == paths[n][i] by {
            assert(paths[c][i] == paths[p][i]);
            assert(paths[n].subrange(0, paths[c].len() as int)[i] == paths[c][i]);
        }
    }
    assert(w.len() > 0);
    assert(w[0] == b);
    assert(w.drop_first() =~= between(paths, c, n));
    if c == n {
        assert(w.drop_first().len() == 0);
    }
}

/// The tokens below `p` are those that its children lead to.
proof fn lemma_children(
    t: Seq<SchemaView>,
    stack: Seq<FrameView>,
    nodes: Seq<TrieNode>,
    paths: Seq<Seq<u8>>,
    p: int,
    tok: int,
)
    requires
        vocab::trie_wf(nodes, paths),
        0 <= p < nodes.len(),
    ensures
        some_under(t, stack, nodes, paths, p, tok) == via_first(
            t,
            stack,
            nodes,
            paths,
            p,
            nodes[p].children@.len() as int,
            tok,
        ),
{
    let k = nodes[p].children@.len() as int;
    assert(vocab::children_wf(nodes, paths, p));
    if some_under(t, stack, nodes, paths, p, tok) {
        let n = choose|n: int| token_under(t, stack, nodes, paths, p, n, tok);
        let c = lemma_descend(nodes, paths, p, n);
        let b = paths[n][paths[p].len() as int];
        let j = choose|j: int|
            0 <= j < nodes[p].children@.len() && (#[trigger] nodes[p].children@[j]).0 == b
                && nodes[p].children@[j].1 == c;
        lemma_between_child(t, stack, nodes, paths, p, b, c, n);
        let next = machine::feed(t, stack, b).0;
        if c != n {
            assert(token_under(t, next, nodes, paths, c, n, tok));
        }
        assert(via_child(
            t,
            stack,
            nodes,
            paths,
            nodes[p].children@[j].0,
            nodes[p].children@[j].1 as int,
            tok,
        ));
    }
    if via_first(t, stack, nodes, paths, p, k, tok) {
        let j = choose|j: int|
            0 <= j < k && via_child(
                t,
                stack,
                nodes,
                paths,
                (#[trigger] nodes[p].children@[j]).0,
                nodes[p].children@[j].1 as int,
                tok,
            );
        let b = nodes[p].children@[j].0;
        let c = nodes[p].children@[j].1 as int;
        let next = machine::feed(t, stack, b).0;
        if nodes[c].token matches Some(x) && x == tok {
            lemma_between_child(t, stack, nodes, paths, p, b, c, c);
            assert(token_under(t, stack, nodes, paths, p, c, tok));
        } else {
            let n = choose|n: int| token_under(t, next, nodes, paths, c, n, tok);
            lemma_between_child(t, stack, nodes, paths, p, b, c, n);
            assert(token_under(t, stack, nodes, paths, p, n, tok));
        }
    }
}

/// Turns on the bit of every token below `node` whose bytes the machine takes. A branch is left
/// as soon as the machine refuses a byte, and the machine is put back after each byte.
pub fn trie_walk(
    schemas: &Vec<Schema>,
    nodes: &Vec<TrieNode>,
    size: usize,
    m: &mut Machine,
    node: usize,
    out: &mut Vec<u32>,
    Ghost(paths): Ghost<Seq<Seq<u8>>>,
)
    requires
        machine::table_wf(schema::table_view(schemas@)),
        vocab::trie_wf(nodes@, paths),
        machine::stack_wf(old(m)@, schemas@.len()),
        node < nodes.len(),
        size <= 32 * old(out)@.len(),
    ensures
        final(m)@ == old(m)@,
        final(out)@.len() == old(out)@.len(),
        forall|tok: int| #[trigger]
            bits::bit(final(out)@, tok) == (bits::bit(old(out)@, tok) || (tok < size && some_under(
                schema::table_view(schemas@),
                old(m)@,
                nodes@,
                paths,
                node as int,
                tok,
            ))),
    decreases nodes.len() - node,
{
    let ghost t = schema::table_view(schemas@);
    let ghost stack = m@;
    let ghost first = out@;
    let children = &nodes[node].children;
    let mut k: usize = 0;
    assert(vocab::children_wf(nodes@, paths, node as int));
    while k < children.len()
        invariant
            t == schema::table_view(schemas@),
            machine::table_wf(t),
            vocab::trie_wf(nodes@, paths),
            machine::stack_wf(stack, schemas@.len()),
            node < nodes.len(),
            children == nodes@[node as int].children,
            k <= children.len(),
            size <= 32 * out@.len(),
            m@ == stack,
            out@.len() == first.len(),
            vocab::children_wf(nodes@, paths, node as int),
            forall|tok: int| #[trigger]
                bits::bit(out@, tok) == (bits::bit(first, tok) || (tok < size && via_first(
                    t,
                    stack,
                    nodes@,
                    paths,
                    node as int,
                    k as int,
                    tok,
                ))),
        decreases children.len() - k,
    {
        let (b, child) = children[k];
        let ghost before = out@;
        assert(nodes@[node as int].children@[k as int] == (b, child));
        let mut roll = Roll::new(m.stack.len());
        let alive = feed::feed(schemas, m, b, &mut roll);
        let ghost next = m@;
        if alive {
            if let Some(tok) = nodes[child].token {
                if (tok as usize) < size {
                    bits::set_bit(out, tok as usize);
                }
            }
            let ghost middle = out@;
            trie_walk(schemas, nodes, size, m, child, out, Ghost(paths));
        }
        roll.restore(m, Ghost(stack));
        k += 1;
        assert forall|tok: int| #[trigger]
            bits::bit(out@, tok) == (bits::bit(first, tok) || (tok < size && via_first(
                t,
                stack,
                nodes@,
                paths,
                node as int,
                k as int,
                tok,
            ))) by {
            let here = via_child(t, stack, nodes@, paths, b, child as int, tok);
            assert(via_first(t, stack, nodes@, paths, node as int, k as int, tok) == (via_first(
                t,
                stack,
                nodes@,
                paths,
                node as int,
                k - 1,
                tok,
            ) || here)) by {
                if via_first(t, stack, nodes@, paths, node as int, k as int, tok) {
                    let j = choose|j: int|
                        0 <= j < k && via_child(
                            t,
                            stack,
                            nodes@,
                            paths,
                            (#[trigger] nodes@[node as int].children@[j]).0,
                            nodes@[node as int].children@[j].1 as int,
                            tok,
                        );
                    if j < k - 1 {
                        assert(via_first(t, stack, nodes@, paths, node as int, k - 1, tok));
                    }
                }
                if here {
                    assert(via_child(
                        t,
                        stack,
                        nodes@,
                        paths,
                        nodes@[node as int].children@[k - 1].0,
                        nodes@[node as int].children@[k - 1].1 as int,
                        tok,
                    ));
                }
            }
            assert(bits::bit(out@, tok) == (bits::bit(before, tok) || (tok < size && here)));
        }
    }
    proof {
        assert forall|tok: int| #[trigger]
            bits::bit(out@, tok) == (bits::bit(first, tok) || (tok < size && some_under(
                t,
                stack,
                nodes@,
                paths,
                node as int,
                tok,
            ))) by {
            lemma_children(t, stack, nodes@, paths, node as int, tok);
        }
    }
}

} // verus!
