//! Nesting structure of a decoded token stream, and the proof that encoding a freshly
//! decoded document reproduces its input.
use crate::encode::{
    add_type, emit, end_byte, definitions, has_terminator, list_events, relocate, spec_encode,
    tree_events, type_id, walk_fuel,
};
use crate::wire::{
    concat, container, headers, Document, Limits, record_wire, spec_terminal, stream_wire, PayloadModel,
    RecordModel, StringModel, TypeModel,
};
use vstd::prelude::*;

verus! {

/// A container end token: tag 5 or 7, no name, no payload.
pub open spec fn is_end(r: RecordModel) -> bool {
    (r.tag == 5 || r.tag == 7) && r.name is None && r.payload == PayloadModel::Empty
}

/// `kids` are consecutive spans covering exactly `lo..hi`: each kid starts where the
/// previous one's span (ending at `close[kid]`) stopped.
pub open spec fn chain(close: Map<int, int>, lo: int, hi: int, kids: Seq<usize>) -> bool
    decreases kids.len(),
{
    if kids.len() == 0 {
        lo == hi
    } else {
        &&& kids[0] as int == lo
        &&& close.contains_key(lo)
        &&& chain(close, close[lo] + 1, hi, kids.drop_first())
    }
}

/// The span of a completed tree node `i` ends at `close[i]`; for a container that index holds
/// its matching end token and its children tile the records in between.
pub open spec fn closed_ok(rs: Seq<RecordModel>, close: Map<int, int>, i: int) -> bool {
    if container(rs[i].tag) {
        &&& i < close[i] < rs.len()
        &&& is_end(rs[close[i]])
        &&& rs[close[i]].tag == end_byte(rs[i])
        &&& chain(close, i + 1, close[i], rs[i].children)
    } else {
        close[i] == i && rs[i].children.len() == 0
    }
}

pub open spec fn tree_node(rs: Seq<RecordModel>, i: int) -> bool {
    0 <= i < rs.len() && !spec_terminal(rs[i].tag)
}

/// Invariant of the decoder's container stack over the records read so far.
#[verifier::opaque]
pub open spec fn bracketed(
    rs: Seq<RecordModel>,
    roots: Seq<usize>,
    stack: Seq<usize>,
    close: Map<int, int>,
    term: bool,
) -> bool {
    let n = rs.len() as int;
    &&& forall|i: int| #[trigger]
        close.contains_key(i) ==> tree_node(rs, i) && !stack.contains(i as usize)
    &&& forall|i: int|
        #![trigger rs[i]]
        tree_node(rs, i) && !stack.contains(i as usize) ==> close.contains_key(i) && closed_ok(
            rs,
            close,
            i,
        )
    &&& forall|i: int, j: int|
        0 <= i < n && 0 <= j < rs[i].children.len() ==> tree_node(
            rs,
            #[trigger] rs[i].children[j] as int,
        )
    &&& forall|j: int| 0 <= j < roots.len() ==> tree_node(rs, #[trigger] roots[j] as int)
    &&& forall|a: int, b: int|
        0 <= a < b < stack.len() ==> #[trigger] stack[a] < #[trigger] stack[b]
    &&& forall|a: int|
        0 <= a < stack.len() ==> tree_node(rs, #[trigger] stack[a] as int) && container(
            rs[stack[a] as int].tag,
        )
    &&& forall|a: int|
        0 <= a < stack.len() - 1 ==> {
            let s = #[trigger] stack[a];
            &&& rs[s as int].children.len() > 0
            &&& rs[s as int].children.last() == stack[a + 1]
            &&& chain(close, s + 1, stack[a + 1] as int, rs[s as int].children.drop_last())
        }
    &&& stack.len() > 0 ==> chain(close, stack.last() + 1, n, rs[stack.last() as int].children)
    &&& stack.len() > 0 ==> roots.len() > 0 && roots.last() == stack[0] && chain(
        close,
        0,
        stack[0] as int,
        roots.drop_last(),
    )
    &&& stack.len() == 0 ==> chain(close, 0, if term { n - 1 } else { n }, roots)
    &&& forall|i: int|
        0 <= i < n && (#[trigger] rs[i]).tag == 49 ==> term && i == n - 1 && rs[i].name is None
            && rs[i].payload == PayloadModel::Empty
    &&& term ==> n > 0 && rs[n - 1].tag == 49 && stack.len() == 0
    &&& forall|i: int| 0 <= i < n && (#[trigger] rs[i].tag == 5 || rs[i].tag == 7) ==> is_end(rs[i])
}

pub open spec fn is_definition(r: RecordModel, t: i32) -> bool {
    r.payload matches PayloadModel::Node { ty: TypeModel::Definition(t2, _), .. } && t2 == t
}

/// Type declarations come before their uses, and each type ID is declared once.
#[verifier::opaque]
pub open spec fn types_ordered(rs: Seq<RecordModel>) -> bool {
    &&& forall|j: int, i: int, t: i32|
        0 <= i < j < rs.len() && #[trigger] is_definition(rs[j], t) ==> type_id(
            #[trigger] rs[i].payload,
        ) != Some(t)
    &&& forall|j: int|
        #![trigger rs[j]]
        0 <= j < rs.len() ==> (rs[j].payload matches PayloadModel::Node {
            ty: TypeModel::Reference(t),
            ..
        } ==> exists|i: int| 0 <= i < j && #[trigger] is_definition(rs[i], t))
    &&& forall|j: int| 0 <= j < rs.len() && spec_terminal(#[trigger] rs[j].tag) ==> type_id(
        rs[j].payload,
    ) is None
}

// ---------------------------------------------------------------------------------------
// Maintenance lemmas used by the decoder.
pub proof fn lemma_chain_frame(close: Map<int, int>, lo: int, hi: int, kids: Seq<usize>, x: int, v: int)
    requires
        chain(close, lo, hi, kids),
        !close.contains_key(x),
    ensures
        chain(close.insert(x, v), lo, hi, kids),
    decreases kids.len(),
{
    if kids.len() > 0 {
        lemma_chain_frame(close, close[lo] + 1, hi, kids.drop_first(), x, v);
    }
}

pub proof fn lemma_chain_push(close: Map<int, int>, lo: int, hi: int, kids: Seq<usize>, x: usize)
    requires
        chain(close, lo, hi, kids),
        x as int == hi,
        close.contains_key(hi),
    ensures
        chain(close, lo, close[hi] + 1, kids.push(x)),
    decreases kids.len(),
{
    if kids.len() == 0 {
        assert(kids.push(x).drop_first() =~= Seq::<usize>::empty());
        assert(chain(close, close[lo] + 1, close[hi] + 1, Seq::<usize>::empty()));
        assert(kids.push(x)[0] == x);
    } else {
        lemma_chain_push(close, close[lo] + 1, hi, kids.drop_first(), x);
        assert(kids.push(x).drop_first() =~= kids.drop_first().push(x));
        assert(kids.push(x)[0] == kids[0]);
    }
}

/// The decoder's state after reading the first record.
pub proof fn lemma_bracketed_empty()
    ensures
        bracketed(Seq::empty(), Seq::empty(), Seq::empty(), Map::empty(), false),
{
    reveal(bracketed);
    reveal(types_ordered);
    reveal(types_known);
}


/// How the decoder appends record `rec` at index `rs.len()` and links it into the tree.
pub open spec fn linked(
    rs: Seq<RecordModel>,
    roots: Seq<usize>,
    rs2: Seq<RecordModel>,
    roots2: Seq<usize>,
    rec: RecordModel,
) -> bool {
    let n = rs.len();
    &&& rs2.len() == n + 1
    &&& rs2[n as int] == rec
    &&& if spec_terminal(rec.tag) {
        rs2.take(n as int) == rs && roots2 == roots
    } else {
        match rec.parent {
            Some(p) => p < n && roots2 == roots && rs2.take(n as int) == rs.update(
                p as int,
                RecordModel { children: rs[p as int].children.push(n as usize), ..rs[p as int] },
            ),
            None => roots2 == roots.push(n as usize) && rs2.take(n as int) == rs,
        }
    }
}

pub open spec fn stack_top(stack: Seq<usize>) -> Option<usize> {
    if stack.len() > 0 {
        Some(stack.last())
    } else {
        None
    }
}

proof fn lemma_linked_facts(
    rs: Seq<RecordModel>,
    roots: Seq<usize>,
    rs2: Seq<RecordModel>,
    roots2: Seq<usize>,
    rec: RecordModel,
)
    requires
        linked(rs, roots, rs2, roots2, rec),
    ensures
        forall|i: int| 0 <= i < rs.len() ==> (#[trigger] rs2[i]).tag == rs[i].tag,
        forall|i: int| 0 <= i < rs.len() ==> (#[trigger] rs2[i]).payload == rs[i].payload,
        forall|i: int|
            0 <= i < rs.len() && (spec_terminal(rec.tag) || rec.parent != Some(i as usize))
                ==> #[trigger] rs2[i] == rs[i],
{
    let n = rs.len() as int;
    assert forall|i: int| 0 <= i < n implies (#[trigger] rs2[i]).tag == rs[i].tag && rs2[i].payload
        == rs[i].payload && ((spec_terminal(rec.tag) || rec.parent != Some(i as usize)) ==> rs2[i]
        == rs[i]) by {
        assert(rs2[i] == rs2.take(n)[i]);
    }
}

/// A closed node keeps its span when a record is appended and `close` grows by a new key.
proof fn lemma_closed_frame(
    rs: Seq<RecordModel>,
    rs2: Seq<RecordModel>,
    close: Map<int, int>,
    i: int,
    x: int,
    v: int,
)
    requires
        closed_ok(rs, close, i),
        close.contains_key(i),
        0 <= i < rs.len() < rs2.len(),
        rs2[i] == rs[i],
        container(rs[i].tag) ==> rs2[close[i]] == rs[close[i]],
        !close.contains_key(x),
    ensures
        closed_ok(rs2, close.insert(x, v), i),
{
    if container(rs[i].tag) {
        lemma_chain_frame(close, i + 1, close[i], rs[i].children, x, v);
    }
}

/// Reading a leaf (a tree node that is not a container).
pub proof fn lemma_bracketed_leaf(
    rs: Seq<RecordModel>,
    roots: Seq<usize>,
    stack: Seq<usize>,
    close: Map<int, int>,
    rs2: Seq<RecordModel>,
    roots2: Seq<usize>,
    rec: RecordModel,
)
    requires
        bracketed(rs, roots, stack, close, false),
        linked(rs, roots, rs2, roots2, rec),
        rec.parent == stack_top(stack),
        rs2.len() <= usize::MAX,
        !spec_terminal(rec.tag),
        !container(rec.tag),
        rec.tag != 49,
        rec.children.len() == 0,
    ensures
        bracketed(rs2, roots2, stack, close.insert(rs.len() as int, rs.len() as int), false),
{
    reveal(bracketed);
    reveal(types_ordered);
    reveal(types_known);
    let n = rs.len() as int;
    let c2 = close.insert(n, n);
    lemma_linked_facts(rs, roots, rs2, roots2, rec);
    assert(!close.contains_key(n));
    assert(!stack.contains(n as usize)) by {
        if stack.contains(n as usize) {
            let a = choose|a: int| 0 <= a < stack.len() && stack[a] == n as usize;
            assert(tree_node(rs, stack[a] as int));
        }
    }
    // Closed nodes.
    assert forall|i: int|
        #![trigger rs2[i]]
        tree_node(rs2, i) && !stack.contains(i as usize) implies c2.contains_key(i) && closed_ok(
        rs2,
        c2,
        i,
    ) by {
        if i < n {
            assert(tree_node(rs, i));
            if rec.parent == Some(i as usize) {
                assert(stack.contains(i as usize));
            }
            if container(rs[i].tag) {
                assert(rs[close[i]].tag == 5 || rs[close[i]].tag == 7);
                if rec.parent == Some(close[i] as usize) {
                    let a = stack.len() - 1;
                    assert(container(rs[stack[a] as int].tag));
                }
                assert(rs2[close[i]] == rs[close[i]]);
            }
            lemma_closed_frame(rs, rs2, close, i, n, n);
        }
    }
    assert forall|i: int| #[trigger] c2.contains_key(i) implies tree_node(rs2, i) && !stack.contains(
        i as usize,
    ) by {
        if i != n {
            assert(tree_node(rs, i));
        }
    }
    // Children are tree nodes.
    assert forall|i: int, j: int|
        0 <= i < rs2.len() && 0 <= j < rs2[i].children.len() implies tree_node(
        rs2,
        #[trigger] rs2[i].children[j] as int,
    ) by {
        if i < n {
            if rec.parent == Some(i as usize) {
                assert(rs2[i] == rs2.take(n)[i]);
                assert(rs2[i].children == rs[i].children.push(n as usize));
                if j < rs[i].children.len() {
                    assert(rs2[i].children[j] == rs[i].children[j]);
                    assert(tree_node(rs, rs[i].children[j] as int));
                }
            } else {
                assert(tree_node(rs, rs[i].children[j] as int));
            }
        }
    }
    assert forall|j: int| 0 <= j < roots2.len() implies tree_node(rs2, #[trigger] roots2[j] as int) by {
        if j < roots.len() {
            assert(roots2[j] == roots[j]);
            assert(tree_node(rs, roots[j] as int));
        }
    }
    // Stack levels below the top are untouched.
    assert forall|a: int| 0 <= a < stack.len() - 1 implies {
        let s = #[trigger] stack[a];
        &&& rs2[s as int].children.len() > 0
        &&& rs2[s as int].children.last() == stack[a + 1]
        &&& chain(c2, s + 1, stack[a + 1] as int, rs2[s as int].children.drop_last())
    } by {
        let s = stack[a];
        assert(stack[a] < stack[stack.len() - 1]);
        assert(tree_node(rs, s as int));
        assert(rs2[s as int] == rs[s as int]);
        lemma_chain_frame(close, s + 1, stack[a + 1] as int, rs[s as int].children.drop_last(), n, n);
    }
    assert forall|a: int| 0 <= a < stack.len() implies tree_node(rs2, #[trigger] stack[a] as int)
        && container(rs2[stack[a] as int].tag) by {
        assert(tree_node(rs, stack[a] as int));
    }
    if stack.len() > 0 {
        let top = stack.last();
        assert(tree_node(rs, top as int));
        lemma_chain_frame(close, top + 1, n, rs[top as int].children, n, n);
        lemma_chain_push(c2, top + 1, n, rs[top as int].children, n as usize);
        assert(rs2[top as int].children == rs[top as int].children.push(n as usize)) by {
            assert(rs2[top as int] == rs2.take(n)[top as int]);
        }
        lemma_chain_frame(close, 0, stack[0] as int, roots.drop_last(), n, n);
    } else {
        lemma_chain_frame(close, 0, n, roots, n, n);
        lemma_chain_push(c2, 0, n, roots, n as usize);
    }
    assert forall|i: int| 0 <= i < rs2.len() && (#[trigger] rs2[i]).tag == 49 implies false by {}
    assert forall|i: int| 0 <= i < rs2.len() && (#[trigger] rs2[i].tag == 5 || rs2[i].tag == 7) implies is_end(rs2[i]) by {
        if i < n {
            assert(rs[i].tag == 5 || rs[i].tag == 7);
            assert(rs2[i] == rs[i]);
        }
    }
}


/// Reading a container opening: it is linked like a leaf and becomes the top of the stack.
#[verifier::spinoff_prover]
#[verifier::rlimit(40)]
pub proof fn lemma_bracketed_open(
    rs: Seq<RecordModel>,
    roots: Seq<usize>,
    stack: Seq<usize>,
    close: Map<int, int>,
    rs2: Seq<RecordModel>,
    roots2: Seq<usize>,
    rec: RecordModel,
)
    requires
        bracketed(rs, roots, stack, close, false),
        linked(rs, roots, rs2, roots2, rec),
        rec.parent == stack_top(stack),
        rs2.len() <= usize::MAX,
        container(rec.tag),
        rec.children.len() == 0,
    ensures
        bracketed(rs2, roots2, stack.push(rs.len() as usize), close, false),
{
    reveal(bracketed);
    reveal(types_ordered);
    reveal(types_known);
    let n = rs.len() as int;
    let st = stack.push(n as usize);
    lemma_linked_facts(rs, roots, rs2, roots2, rec);
    assert(!close.contains_key(n));
    assert forall|a: int| 0 <= a < stack.len() implies #[trigger] stack[a] < n by {
        assert(tree_node(rs, stack[a] as int));
    }
    assert forall|i: int|
        #![trigger rs2[i]]
        tree_node(rs2, i) && !st.contains(i as usize) implies close.contains_key(i) && closed_ok(
        rs2,
        close,
        i,
    ) by {
        if i == n {
            assert(st[stack.len() as int] == n as usize);
        } else {
            assert(tree_node(rs, i));
            if stack.contains(i as usize) {
                let a = choose|a: int| 0 <= a < stack.len() && stack[a] == i as usize;
                assert(st[a] == i as usize);
            }
            if rec.parent == Some(i as usize) {
                assert(stack.contains(i as usize));
            }
            if container(rs[i].tag) {
                assert(rs[close[i]].tag == 5 || rs[close[i]].tag == 7);
                if rec.parent == Some(close[i] as usize) {
                    let a = stack.len() - 1;
                    assert(container(rs[stack[a] as int].tag));
                }
                assert(rs2[close[i]] == rs[close[i]]);
                lemma_chain_frame(close, i + 1, close[i], rs[i].children, -1, 0);
            }
            assert(close.insert(-1, 0).remove(-1) =~= close);
            assert(closed_ok(rs2, close, i)) by {
                if container(rs[i].tag) {
                    assert(rs2[i] == rs[i]);
                }
            }
        }
    }
    assert forall|i: int| #[trigger] close.contains_key(i) implies tree_node(rs2, i) && !st.contains(
        i as usize,
    ) by {
        assert(tree_node(rs, i));
        if st.contains(i as usize) {
            let a = choose|a: int| 0 <= a < st.len() && st[a] == i as usize;
            if a < stack.len() {
                assert(stack[a] == i as usize);
            }
        }
    }
    assert forall|i: int, j: int|
        0 <= i < rs2.len() && 0 <= j < rs2[i].children.len() implies tree_node(
        rs2,
        #[trigger] rs2[i].children[j] as int,
    ) by {
        if i < n {
            if rec.parent == Some(i as usize) {
                assert(rs2[i] == rs2.take(n)[i]);
                assert(rs2[i].children == rs[i].children.push(n as usize));
                if j < rs[i].children.len() {
                    assert(rs2[i].children[j] == rs[i].children[j]);
                    assert(tree_node(rs, rs[i].children[j] as int));
                }
            } else {
                assert(tree_node(rs, rs[i].children[j] as int));
            }
        }
    }
    assert forall|j: int| 0 <= j < roots2.len() implies tree_node(rs2, #[trigger] roots2[j] as int) by {
        if j < roots.len() {
            assert(roots2[j] == roots[j]);
            assert(tree_node(rs, roots[j] as int));
        }
    }
    assert forall|a: int, b: int| 0 <= a < b < st.len() implies #[trigger] st[a] < #[trigger] st[b] by {
        if b < stack.len() {
            assert(stack[a] < stack[b]);
        } else {
            assert(stack[a] < n);
        }
    }
    assert forall|a: int| 0 <= a < st.len() implies tree_node(rs2, #[trigger] st[a] as int)
        && container(rs2[st[a] as int].tag) by {
        if a < stack.len() {
            assert(tree_node(rs, stack[a] as int));
        }
    }
    assert forall|a: int| 0 <= a < st.len() - 1 implies {
        let s = #[trigger] st[a];
        &&& rs2[s as int].children.len() > 0
        &&& rs2[s as int].children.last() == st[a + 1]
        &&& chain(close, s + 1, st[a + 1] as int, rs2[s as int].children.drop_last())
    } by {
        let s = st[a];
        assert(s == stack[a]);
        assert(tree_node(rs, s as int));
        if a < stack.len() - 1 {
            assert(stack[a] < stack[stack.len() - 1]);
            assert(rs2[s as int] == rs[s as int]);
        } else {
            assert(rs2[s as int] == rs2.take(n)[s as int]);
            assert(rs2[s as int].children == rs[s as int].children.push(n as usize));
            assert(rs2[s as int].children.drop_last() =~= rs[s as int].children);
        }
    }
    assert(rs2[n].children =~= Seq::<usize>::empty());
    if stack.len() > 0 {
        assert(st[0] == stack[0]);
    } else {
        assert(roots2.drop_last() =~= roots);
    }
    assert forall|i: int| 0 <= i < rs2.len() && (#[trigger] rs2[i]).tag == 49 implies false by {}
    assert forall|i: int| 0 <= i < rs2.len() && (#[trigger] rs2[i].tag == 5 || rs2[i].tag == 7) implies is_end(rs2[i]) by {
        if i < n {
            assert(rs[i].tag == 5 || rs[i].tag == 7);
            assert(rs2[i] == rs[i]);
        }
    }
}

/// Preconditions shared by the parts of the container-end step.
pub open spec fn close_step(
    rs: Seq<RecordModel>,
    roots: Seq<usize>,
    stack: Seq<usize>,
    close: Map<int, int>,
    rs2: Seq<RecordModel>,
    roots2: Seq<usize>,
    rec: RecordModel,
) -> bool {
    &&& bracketed(rs, roots, stack, close, false)
    &&& linked(rs, roots, rs2, roots2, rec)
    &&& stack.len() > 0
    &&& rs2.len() <= usize::MAX
    &&& is_end(rec)
    &&& rec.children.len() == 0
    &&& rec.tag == end_byte(rs[stack.last() as int])
}

proof fn lemma_close_nodes(
    rs: Seq<RecordModel>,
    roots: Seq<usize>,
    stack: Seq<usize>,
    close: Map<int, int>,
    rs2: Seq<RecordModel>,
    roots2: Seq<usize>,
    rec: RecordModel,
)
    requires
        close_step(rs, roots, stack, close, rs2, roots2, rec),
    ensures
        ({
            let st = stack.drop_last();
            let c2 = close.insert(stack.last() as int, rs.len() as int);
            &&& forall|i: int| #[trigger]
                c2.contains_key(i) ==> tree_node(rs2, i) && !st.contains(i as usize)
            &&& forall|i: int|
                #![trigger rs2[i]]
                tree_node(rs2, i) && !st.contains(i as usize) ==> c2.contains_key(i) && closed_ok(
                    rs2,
                    c2,
                    i,
                )
        }),
{
    reveal(bracketed);
    reveal(types_ordered);
    reveal(types_known);
    let n = rs.len() as int;
    let s = stack.last() as int;
    let st = stack.drop_last();
    let c2 = close.insert(s, n);
    lemma_linked_facts(rs, roots, rs2, roots2, rec);
    assert(tree_node(rs, s));
    assert(!close.contains_key(s)) by {
        assert(stack.contains(s as usize));
    }
    assert(!st.contains(s as usize)) by {
        if st.contains(s as usize) {
            let a = choose|a: int| 0 <= a < st.len() && st[a] == s as usize;
            assert(stack[a] < stack[stack.len() - 1]);
        }
    }
    lemma_chain_frame(close, s + 1, n, rs[s].children, s, n);
    assert forall|i: int|
        #![trigger rs2[i]]
        tree_node(rs2, i) && !st.contains(i as usize) implies c2.contains_key(i) && closed_ok(
        rs2,
        c2,
        i,
    ) by {
        assert(i < n);
        assert(tree_node(rs, i));
        assert(rs2[i] == rs[i]);
        if i != s {
            if stack.contains(i as usize) {
                let a = choose|a: int| 0 <= a < stack.len() && stack[a] == i as usize;
                if a < stack.len() - 1 {
                    assert(st[a] == i as usize);
                }
            }
            if container(rs[i].tag) {
                assert(close[i] < n);
                assert(rs2[close[i]] == rs[close[i]]);
            }
            lemma_closed_frame(rs, rs2, close, i, s, n);
        } else {
            assert(container(rs[s].tag));
            assert(rs2[n] == rec);
        }
    }
    assert forall|i: int| #[trigger] c2.contains_key(i) implies tree_node(rs2, i) && !st.contains(
        i as usize,
    ) by {
        if i != s {
            assert(tree_node(rs, i));
            if st.contains(i as usize) {
                let a = choose|a: int| 0 <= a < st.len() && st[a] == i as usize;
                assert(stack[a] == i as usize);
                assert(stack.contains(i as usize));
            }
        }
    }
}

proof fn lemma_close_links(
    rs: Seq<RecordModel>,
    roots: Seq<usize>,
    stack: Seq<usize>,
    close: Map<int, int>,
    rs2: Seq<RecordModel>,
    roots2: Seq<usize>,
    rec: RecordModel,
)
    requires
        close_step(rs, roots, stack, close, rs2, roots2, rec),
    ensures
        ({
            let st = stack.drop_last();
            let c2 = close.insert(stack.last() as int, rs.len() as int);
            let n2 = rs2.len() as int;
            &&& forall|a: int| 0 <= a < st.len() - 1 ==> {
                let q = #[trigger] st[a];
                &&& rs2[q as int].children.len() > 0
                &&& rs2[q as int].children.last() == st[a + 1]
                &&& chain(c2, q + 1, st[a + 1] as int, rs2[q as int].children.drop_last())
            }
            &&& st.len() > 0 ==> chain(c2, st.last() + 1, n2, rs2[st.last() as int].children)
            &&& st.len() > 0 ==> roots2.len() > 0 && roots2.last() == st[0] && chain(
                c2,
                0,
                st[0] as int,
                roots2.drop_last(),
            )
            &&& st.len() == 0 ==> chain(c2, 0, n2, roots2)
        }),
{
    reveal(bracketed);
    reveal(types_ordered);
    reveal(types_known);
    let n = rs.len() as int;
    let s = stack.last() as int;
    let st = stack.drop_last();
    let c2 = close.insert(s, n);
    lemma_linked_facts(rs, roots, rs2, roots2, rec);
    assert(tree_node(rs, s));
    assert(!close.contains_key(s)) by {
        assert(stack.contains(s as usize));
    }
    assert forall|a: int| 0 <= a < st.len() - 1 implies {
        let q = #[trigger] st[a];
        &&& rs2[q as int].children.len() > 0
        &&& rs2[q as int].children.last() == st[a + 1]
        &&& chain(c2, q + 1, st[a + 1] as int, rs2[q as int].children.drop_last())
    } by {
        let q = st[a];
        assert(q == stack[a]);
        assert(stack[a + 1] == st[a + 1]);
        assert(tree_node(rs, q as int));
        assert(rs2[q as int] == rs[q as int]);
        lemma_chain_frame(close, q + 1, stack[a + 1] as int, rs[q as int].children.drop_last(), s, n);
    }
    if st.len() > 0 {
        let q = st.last();
        let a = st.len() - 1;
        assert(q == stack[a]);
        assert(stack[a + 1] == s as usize);
        assert(tree_node(rs, q as int));
        assert(rs2[q as int] == rs[q as int]);
        let kids = rs[q as int].children;
        lemma_chain_frame(close, q + 1, s, kids.drop_last(), s, n);
        lemma_chain_push(c2, q + 1, s, kids.drop_last(), s as usize);
        assert(kids.drop_last().push(s as usize) =~= kids);
        lemma_chain_frame(close, 0, stack[0] as int, roots.drop_last(), s, n);
        assert(st[0] == stack[0]);
    } else {
        assert(stack[0] == s as usize);
        lemma_chain_frame(close, 0, s, roots.drop_last(), s, n);
        lemma_chain_push(c2, 0, s, roots.drop_last(), s as usize);
        assert(roots.drop_last().push(s as usize) =~= roots);
    }
}

/// Reading a container end: the top container's span is complete.
pub proof fn lemma_bracketed_close(
    rs: Seq<RecordModel>,
    roots: Seq<usize>,
    stack: Seq<usize>,
    close: Map<int, int>,
    rs2: Seq<RecordModel>,
    roots2: Seq<usize>,
    rec: RecordModel,
)
    requires
        bracketed(rs, roots, stack, close, false),
        linked(rs, roots, rs2, roots2, rec),
        stack.len() > 0,
        rs2.len() <= usize::MAX,
        is_end(rec),
        rec.children.len() == 0,
        rec.tag == end_byte(rs[stack.last() as int]),
    ensures
        bracketed(
            rs2,
            roots2,
            stack.drop_last(),
            close.insert(stack.last() as int, rs.len() as int),
            false,
        ),
{
    reveal(bracketed);
    reveal(types_ordered);
    reveal(types_known);
    let n = rs.len() as int;
    let st = stack.drop_last();
    lemma_close_nodes(rs, roots, stack, close, rs2, roots2, rec);
    lemma_close_links(rs, roots, stack, close, rs2, roots2, rec);
    lemma_linked_facts(rs, roots, rs2, roots2, rec);
    assert forall|i: int, j: int|
        0 <= i < rs2.len() && 0 <= j < rs2[i].children.len() implies tree_node(
        rs2,
        #[trigger] rs2[i].children[j] as int,
    ) by {
        if i < n {
            assert(rs2[i] == rs[i]);
            assert(tree_node(rs, rs[i].children[j] as int));
        }
    }
    assert forall|j: int| 0 <= j < roots2.len() implies tree_node(rs2, #[trigger] roots2[j] as int) by {
        assert(tree_node(rs, roots[j] as int));
    }
    assert forall|a: int, b: int| 0 <= a < b < st.len() implies #[trigger] st[a] < #[trigger] st[b] by {
        assert(stack[a] < stack[b]);
    }
    assert forall|a: int| 0 <= a < st.len() implies tree_node(rs2, #[trigger] st[a] as int)
        && container(rs2[st[a] as int].tag) by {
        assert(tree_node(rs, stack[a] as int));
    }
    assert forall|i: int| 0 <= i < rs2.len() && (#[trigger] rs2[i]).tag == 49 implies false by {
        if i < n {
            assert(rs2[i] == rs[i]);
        }
    }
    assert forall|i: int| 0 <= i < rs2.len() && (#[trigger] rs2[i].tag == 5 || rs2[i].tag == 7) implies is_end(rs2[i]) by {
        if i < n {
            assert(rs[i].tag == 5 || rs[i].tag == 7);
            assert(rs2[i] == rs[i]);
        }
    }
}

/// Reading the stream terminator with no open container.
pub proof fn lemma_bracketed_terminator(
    rs: Seq<RecordModel>,
    roots: Seq<usize>,
    stack: Seq<usize>,
    close: Map<int, int>,
    rs2: Seq<RecordModel>,
    roots2: Seq<usize>,
    rec: RecordModel,
)
    requires
        bracketed(rs, roots, stack, close, false),
        linked(rs, roots, rs2, roots2, rec),
        stack.len() == 0,
        rec.tag == 49,
        rec.children.len() == 0,
        rec.name is None,
        rec.payload == PayloadModel::Empty,
    ensures
        bracketed(rs2, roots2, stack, close, true),
{
    reveal(bracketed);
    reveal(types_ordered);
    reveal(types_known);
    let n = rs.len() as int;
    lemma_linked_facts(rs, roots, rs2, roots2, rec);
    assert forall|i: int|
        #![trigger rs2[i]]
        tree_node(rs2, i) && !stack.contains(i as usize) implies close.contains_key(i) && closed_ok(
        rs2,
        close,
        i,
    ) by {
        assert(i < n);
        assert(tree_node(rs, i));
        assert(rs2[i] == rs[i]);
        if container(rs[i].tag) {
            assert(rs2[close[i]] == rs[close[i]]);
        }
    }
    assert forall|i: int| #[trigger] close.contains_key(i) implies tree_node(rs2, i) && !stack.contains(
        i as usize,
    ) by {
        assert(tree_node(rs, i));
    }
    assert forall|i: int, j: int|
        0 <= i < rs2.len() && 0 <= j < rs2[i].children.len() implies tree_node(
        rs2,
        #[trigger] rs2[i].children[j] as int,
    ) by {
        if i < n {
            assert(rs2[i] == rs[i]);
            assert(tree_node(rs, rs[i].children[j] as int));
        }
    }
    assert forall|j: int| 0 <= j < roots2.len() implies tree_node(rs2, #[trigger] roots2[j] as int) by {
        assert(tree_node(rs, roots[j] as int));
    }
    assert forall|i: int| 0 <= i < rs2.len() && (#[trigger] rs2[i]).tag == 49 implies i == n by {
        if i < n {
            assert(rs2[i] == rs[i]);
        }
    }
    assert forall|i: int| 0 <= i < rs2.len() && (#[trigger] rs2[i].tag == 5 || rs2[i].tag == 7) implies is_end(rs2[i]) by {
        if i < n {
            assert(rs[i].tag == 5 || rs[i].tag == 7);
            assert(rs2[i] == rs[i]);
        }
    }
}


/// The declared type IDs are exactly those declared by the records read so far.
#[verifier::opaque]
pub open spec fn types_known(rs: Seq<RecordModel>, dom: Set<i32>) -> bool {
    forall|t: i32| #[trigger] dom.contains(t) <==> exists|i: int| 0 <= i < rs.len() && #[trigger] is_definition(rs[i], t)
}

/// How reading a record changes the set of declared type IDs.
pub open spec fn types_step(p: PayloadModel, dom: Set<i32>, dom2: Set<i32>) -> bool {
    match p {
        PayloadModel::Node { ty: TypeModel::Definition(t, _), .. } => !dom.contains(t) && dom2
            == dom.insert(t),
        PayloadModel::Node { ty: TypeModel::Reference(t), .. } => dom.contains(t) && dom2 == dom,
        _ => dom2 == dom,
    }
}

pub proof fn lemma_types_append(
    rs: Seq<RecordModel>,
    rs2: Seq<RecordModel>,
    rec: RecordModel,
    dom: Set<i32>,
    dom2: Set<i32>,
)
    requires
        types_ordered(rs),
        types_known(rs, dom),
        rs2.len() == rs.len() + 1,
        rs2[rs.len() as int] == rec,
        forall|i: int| 0 <= i < rs.len() ==> (#[trigger] rs2[i]).payload == rs[i].payload && rs2[i].tag == rs[i].tag,
        types_step(rec.payload, dom, dom2),
        spec_terminal(rec.tag) ==> rec.payload == PayloadModel::Empty,
    ensures
        types_ordered(rs2),
        types_known(rs2, dom2),
{
    reveal(bracketed);
    reveal(types_ordered);
    reveal(types_known);
    let n = rs.len() as int;
    assert forall|i: int, t: i32| 0 <= i < n implies #[trigger] is_definition(rs2[i], t) == is_definition(rs[i], t) by {
        assert(rs2[i].payload == rs[i].payload);
    }
    assert forall|j: int, i: int, t: i32|
        0 <= i < j < rs2.len() && #[trigger] is_definition(rs2[j], t) implies type_id(
        #[trigger] rs2[i].payload,
    ) != Some(t) by {
        if j < n {
            assert(is_definition(rs[j], t));
            assert(rs2[i].payload == rs[i].payload);
        } else {
            assert(!dom.contains(t));
            if type_id(rs2[i].payload) == Some(t) {
                assert(rs2[i].payload == rs[i].payload);
                if is_definition(rs[i], t) {
                    assert(dom.contains(t));
                } else {
                    let k = choose|k: int| 0 <= k < i && #[trigger] is_definition(rs[k], t);
                    assert(dom.contains(t));
                }
            }
        }
    }
    assert forall|j: int|
        #![trigger rs2[j]]
        0 <= j < rs2.len() implies (rs2[j].payload matches PayloadModel::Node {
            ty: TypeModel::Reference(t),
            ..
        } ==> exists|i: int| 0 <= i < j && #[trigger] is_definition(rs2[i], t)) by {
        if let PayloadModel::Node { ty: TypeModel::Reference(t), .. } = rs2[j].payload {
            if j < n {
                assert(rs2[j].payload == rs[j].payload);
                let k = choose|k: int| 0 <= k < j && #[trigger] is_definition(rs[k], t);
                assert(is_definition(rs2[k], t));
            } else {
                assert(dom.contains(t));
                let k = choose|k: int| 0 <= k < n && #[trigger] is_definition(rs[k], t);
                assert(is_definition(rs2[k], t));
            }
        }
    }
    assert forall|j: int| 0 <= j < rs2.len() && spec_terminal(#[trigger] rs2[j].tag) implies type_id(
        rs2[j].payload,
    ) is None by {
        if j < n {
            assert(rs2[j].tag == rs[j].tag);
        }
    }
    assert forall|t: i32| #[trigger] dom2.contains(t) <==> exists|i: int| 0 <= i < rs2.len() && #[trigger] is_definition(rs2[i], t) by {
        if dom2.contains(t) {
            if dom.contains(t) {
                let k = choose|k: int| 0 <= k < n && #[trigger] is_definition(rs[k], t);
                assert(is_definition(rs2[k], t));
            } else {
                assert(is_definition(rs2[n], t));
            }
        }
        if exists|i: int| 0 <= i < rs2.len() && #[trigger] is_definition(rs2[i], t) {
            let k = choose|k: int| 0 <= k < rs2.len() && #[trigger] is_definition(rs2[k], t);
            if k < n {
                assert(is_definition(rs[k], t));
            }
        }
    }
}


// ---------------------------------------------------------------------------------------
// Encoding a decoded document.
/// Type IDs used by a sequence of records.
pub open spec fn used_types(rs: Seq<RecordModel>) -> Set<i32>
    decreases rs.len(),
{
    if rs.len() == 0 {
        Set::empty()
    } else {
        add_type(used_types(rs.drop_last()), rs.last().payload)
    }
}

/// Type IDs seen after emitting a walk.
pub open spec fn emitted_after(
    rs: Seq<RecordModel>,
    evs: Seq<(usize, bool)>,
    emitted: Set<i32>,
) -> Set<i32>
    decreases evs.len(),
{
    if evs.len() == 0 {
        emitted
    } else {
        let (id, end) = evs[0];
        emitted_after(
            rs,
            evs.drop_first(),
            if end {
                emitted
            } else {
                add_type(emitted, rs[id as int].payload)
            },
        )
    }
}

pub proof fn lemma_emit_concat(
    rs: Seq<RecordModel>,
    defs: Map<i32, StringModel>,
    a: Seq<(usize, bool)>,
    b: Seq<(usize, bool)>,
    e: Set<i32>,
)
    ensures
        emit(rs, defs, a + b, e) == emit(rs, defs, a, e) + emit(rs, defs, b, emitted_after(rs, a, e)),
        emitted_after(rs, a + b, e) == emitted_after(rs, b, emitted_after(rs, a, e)),
    decreases a.len(),
{
    if a.len() == 0 {
        assert(a + b =~= b);
        assert(emit(rs, defs, a, e) =~= Seq::<u8>::empty());
    } else {
        let (id, end) = a[0];
        assert((a + b).drop_first() =~= a.drop_first() + b);
        let next = if end {
            e
        } else {
            add_type(e, rs[id as int].payload)
        };
        lemma_emit_concat(rs, defs, a.drop_first(), b, next);
        assert((a + b)[0] == a[0]);
    }
}

pub proof fn lemma_stream_concat(a: Seq<RecordModel>, b: Seq<RecordModel>)
    ensures
        stream_wire(a + b) == stream_wire(a) + stream_wire(b),
    decreases b.len(),
{
    if b.len() == 0 {
        assert(a + b =~= a);
        assert(headers(b) =~= Seq::<Seq<u8>>::empty());
    } else {
        lemma_stream_concat(a, b.drop_last());
        assert((a + b).drop_last() =~= a + b.drop_last());
        assert(headers(a + b).drop_last() =~= headers((a + b).drop_last()));
        assert(headers(b).drop_last() =~= headers(b.drop_last()));
        assert(headers(a + b).last() == record_wire(b.last()));
    }
}

pub proof fn lemma_stream_one(r: RecordModel)
    ensures
        stream_wire(seq![r]) == record_wire(r),
{
    assert(headers(seq![r]) =~= seq![record_wire(r)]);
    assert(seq![record_wire(r)].drop_last() =~= Seq::<Seq<u8>>::empty());
    assert(concat(Seq::<Seq<u8>>::empty()) =~= Seq::<u8>::empty());
    assert(concat(seq![record_wire(r)]) =~= record_wire(r));
}

/// The defining declaration of a type ID that is declared exactly once.
proof fn lemma_definitions_unique(rs: Seq<RecordModel>, j: int, t: i32, name: StringModel)
    requires
        0 <= j < rs.len(),
        rs[j].payload matches PayloadModel::Node { ty: TypeModel::Definition(t2, n2), .. } && t2
            == t && n2 == name,
        forall|k: int| 0 <= k < rs.len() && k != j ==> !#[trigger] is_definition(rs[k], t),
    ensures
        definitions(rs).contains_key(t),
        definitions(rs)[t] == name,
    decreases rs.len(),
{
    if j < rs.len() - 1 {
        lemma_definitions_unique(rs.drop_last(), j, t, name);
        assert(!is_definition(rs[rs.len() - 1], t));
    }
}

proof fn lemma_relocate_identity(rs: Seq<RecordModel>, j: int)
    requires
        types_ordered(rs),
        0 <= j < rs.len(),
    ensures
        relocate(rs[j], used_types(rs.take(j)), definitions(rs)) == rs[j],
{
    reveal(types_ordered);
    lemma_used_types(rs, j);
    match rs[j].payload {
        PayloadModel::Node { ty: TypeModel::Definition(t, name), .. } => {
            assert(is_definition(rs[j], t));
            assert forall|k: int| 0 <= k < rs.len() && k != j implies !#[trigger] is_definition(
                rs[k],
                t,
            ) by {
                if k < j && is_definition(rs[k], t) {
                    assert(type_id(rs[k].payload) == Some(t));
                } else if k > j && is_definition(rs[k], t) {
                    assert(type_id(rs[j].payload) == Some(t));
                }
            }
            lemma_definitions_unique(rs, j, t, name);
            assert(!used_types(rs.take(j)).contains(t));
        },
        PayloadModel::Node { ty: TypeModel::Reference(t), .. } => {
            let i = choose|i: int| 0 <= i < j && #[trigger] is_definition(rs[i], t);
            assert(type_id(rs[i].payload) == Some(t));
            assert(used_types(rs.take(j)).contains(t));
        },
        _ => {},
    }
}

/// A type ID is used in a prefix exactly when some record of the prefix carries it.
proof fn lemma_used_types(rs: Seq<RecordModel>, j: int)
    requires
        0 <= j <= rs.len(),
    ensures
        forall|t: i32| #[trigger]
            used_types(rs.take(j)).contains(t) <==> exists|i: int| 0 <= i < j && type_id(
                #[trigger] rs[i].payload,
            ) == Some(t),
    decreases j,
{
    if j > 0 {
        lemma_used_types(rs, j - 1);
        assert(rs.take(j).drop_last() =~= rs.take(j - 1));
        assert(rs.take(j).last() == rs[j - 1]);
        assert forall|t: i32| #[trigger]
            used_types(rs.take(j)).contains(t) <==> exists|i: int| 0 <= i < j && type_id(
                #[trigger] rs[i].payload,
            ) == Some(t) by {
            let prev = used_types(rs.take(j - 1));
            assert(used_types(rs.take(j)) == add_type(prev, rs[j - 1].payload));
            if used_types(rs.take(j)).contains(t) {
                if prev.contains(t) {
                    let i = choose|i: int| 0 <= i < j - 1 && type_id(#[trigger] rs[i].payload) == Some(t);
                    assert(0 <= i < j && type_id(rs[i].payload) == Some(t));
                } else {
                    assert(type_id(rs[j - 1].payload) == Some(t));
                }
            }
            if exists|i: int| 0 <= i < j && type_id(#[trigger] rs[i].payload) == Some(t) {
                let i = choose|i: int| 0 <= i < j && type_id(#[trigger] rs[i].payload) == Some(t);
                if i < j - 1 {
                    assert(used_types(rs.take(j - 1)).contains(t));
                }
            }
        }
    }
}

pub proof fn lemma_used_step(rs: Seq<RecordModel>, j: int)
    requires
        0 <= j < rs.len(),
    ensures
        used_types(rs.take(j + 1)) == add_type(used_types(rs.take(j)), rs[j].payload),
{
    assert(rs.take(j + 1).drop_last() =~= rs.take(j));
    assert(rs.take(j + 1).last() == rs[j]);
}

/// The facts about a finished decode that the encoding proof needs.
pub open spec fn complete(rs: Seq<RecordModel>, close: Map<int, int>) -> bool {
    &&& forall|i: int| #![trigger rs[i]] tree_node(rs, i) ==> close.contains_key(i) && closed_ok(rs, close, i)
    &&& forall|i: int, j: int|
        0 <= i < rs.len() && 0 <= j < rs[i].children.len() ==> tree_node(
            rs,
            #[trigger] rs[i].children[j] as int,
        )
    &&& types_ordered(rs)
}

proof fn lemma_chain_bound(rs: Seq<RecordModel>, close: Map<int, int>, lo: int, hi: int, kids: Seq<usize>)
    requires
        complete(rs, close),
        chain(close, lo, hi, kids),
        forall|k: int| 0 <= k < kids.len() ==> tree_node(rs, #[trigger] kids[k] as int),
    ensures
        lo <= hi,
        kids.len() > 0 ==> close[lo] + 1 <= hi && lo <= close[lo],
    decreases kids.len(),
{
    if kids.len() > 0 {
        assert(tree_node(rs, kids[0] as int));
        assert(closed_ok(rs, close, lo));
        assert forall|k: int| 0 <= k < kids.drop_first().len() implies tree_node(
            rs,
            #[trigger] kids.drop_first()[k] as int,
        ) by {
            assert(kids.drop_first()[k] == kids[k + 1]);
        }
        lemma_chain_bound(rs, close, close[lo] + 1, hi, kids.drop_first());
    }
}

/// Walking a completed node emits exactly the records of its span, in order.
proof fn lemma_span(rs: Seq<RecordModel>, close: Map<int, int>, i: int, fuel: nat)
    requires
        complete(rs, close),
        tree_node(rs, i),
        fuel > close[i] - i,
        rs.len() <= usize::MAX,
    ensures
        i <= close[i] < rs.len(),
        emit(rs, definitions(rs), tree_events(rs, i as usize, fuel), used_types(rs.take(i)))
            == stream_wire(rs.subrange(i, close[i] + 1)),
        emitted_after(rs, tree_events(rs, i as usize, fuel), used_types(rs.take(i)))
            == used_types(rs.take(close[i] + 1)),
    decreases close[i] - i + 1, 0int,
{
    let defs = definitions(rs);
    let e = used_types(rs.take(i));
    let r = rs[i];
    assert(closed_ok(rs, close, i));
    lemma_relocate_identity(rs, i);
    lemma_used_step(rs, i);
    lemma_stream_one(r);
    let head: Seq<(usize, bool)> = seq![(i as usize, false)];
    assert(emit(rs, defs, head, e) == record_wire(r)) by {
        assert(head.drop_first() =~= Seq::<(usize, bool)>::empty());
        assert(emit(rs, defs, head.drop_first(), add_type(e, r.payload)) =~= Seq::<u8>::empty());
        assert(head[0] == (i as usize, false));
        assert(rs[(i as usize) as int] == r);
        assert(emit(rs, defs, head, e) =~= record_wire(relocate(r, e, defs)) + emit(rs, defs, head.drop_first(), add_type(e, r.payload)));
    }
    assert(emitted_after(rs, head, e) == add_type(e, r.payload)) by {
        assert(head.drop_first() =~= Seq::<(usize, bool)>::empty());
        assert(head[0] == (i as usize, false));
        assert(emitted_after(rs, head.drop_first(), add_type(e, r.payload)) == add_type(e, r.payload));
    }
    if container(r.tag) {
        let c = close[i];
        let kids = r.children;
        let inner = list_events(rs, kids, (fuel - 1) as nat);
        let tail: Seq<(usize, bool)> = seq![(i as usize, true)];
        assert(tree_events(rs, i as usize, fuel) == head + inner + tail);
        assert forall|k: int| 0 <= k < kids.len() implies tree_node(rs, #[trigger] kids[k] as int) by {
        }
        lemma_chain_bound(rs, close, i + 1, c, kids);
        lemma_list_span(rs, close, i + 1, c, kids, (fuel - 1) as nat);
        lemma_emit_concat(rs, defs, head, inner, e);
        lemma_emit_concat(rs, defs, head + inner, tail, e);
        let e2 = used_types(rs.take(c));
        assert(emit(rs, defs, tail, e2) == record_wire(rs[c])) by {
            assert(tail.drop_first() =~= Seq::<(usize, bool)>::empty());
            assert(record_wire(rs[c]) =~= seq![rs[c].tag]);
            assert(tail[0] == (i as usize, true));
            assert(rs[(i as usize) as int] == r);
            assert(emit(rs, defs, tail.drop_first(), e2) =~= Seq::<u8>::empty());
            assert(emit(rs, defs, tail, e2) =~= seq![end_byte(r)] + emit(rs, defs, tail.drop_first(), e2));
        }
        assert(emitted_after(rs, tail, e2) == e2) by {
            assert(tail.drop_first() =~= Seq::<(usize, bool)>::empty());
            assert(tail[0] == (i as usize, true));
            assert(emitted_after(rs, tail.drop_first(), e2) == e2);
        }
        lemma_used_step(rs, c);
        assert(add_type(e2, rs[c].payload) == e2);
        lemma_stream_one(rs[c]);
        lemma_stream_concat(seq![r], rs.subrange(i + 1, c));
        lemma_stream_concat(seq![r] + rs.subrange(i + 1, c), seq![rs[c]]);
        assert(seq![r] + rs.subrange(i + 1, c) + seq![rs[c]] =~= rs.subrange(i, c + 1));
    } else {
        assert(tree_events(rs, i as usize, fuel) == head);
        assert(rs.subrange(i, i + 1) =~= seq![r]);
    }
}

/// Walking a chain of completed siblings emits the records they tile, in order.
proof fn lemma_list_span(
    rs: Seq<RecordModel>,
    close: Map<int, int>,
    lo: int,
    hi: int,
    kids: Seq<usize>,
    fuel: nat,
)
    requires
        complete(rs, close),
        chain(close, lo, hi, kids),
        forall|k: int| 0 <= k < kids.len() ==> tree_node(rs, #[trigger] kids[k] as int),
        fuel >= hi - lo,
        0 <= lo,
        hi <= rs.len(),
        rs.len() <= usize::MAX,
    ensures
        lo <= hi,
        emit(rs, definitions(rs), list_events(rs, kids, fuel), used_types(rs.take(lo))) == stream_wire(
            rs.subrange(lo, hi),
        ),
        emitted_after(rs, list_events(rs, kids, fuel), used_types(rs.take(lo))) == used_types(
            rs.take(hi),
        ),
    decreases hi - lo, 1int,
{
    lemma_chain_bound(rs, close, lo, hi, kids);
    let defs = definitions(rs);
    if kids.len() == 0 {
        assert(rs.subrange(lo, hi) =~= Seq::<RecordModel>::empty());
        assert(headers(Seq::<RecordModel>::empty()) =~= Seq::<Seq<u8>>::empty());
    } else {
        let k0 = kids[0] as int;
        assert(tree_node(rs, k0));
        let rest = kids.drop_first();
        let mid = close[lo] + 1;
        assert forall|k: int| 0 <= k < rest.len() implies tree_node(rs, #[trigger] rest[k] as int) by {
            assert(rest[k] == kids[k + 1]);
        }
        lemma_span(rs, close, k0, fuel);
        lemma_list_span(rs, close, mid, hi, rest, fuel);
        let first = tree_events(rs, kids[0], fuel);
        assert(list_events(rs, kids, fuel) == first + list_events(rs, rest, fuel));
        lemma_emit_concat(rs, defs, first, list_events(rs, rest, fuel), used_types(rs.take(lo)));
        lemma_stream_concat(rs.subrange(lo, mid), rs.subrange(mid, hi));
        assert(rs.subrange(lo, mid) + rs.subrange(mid, hi) =~= rs.subrange(lo, hi));
    }
}

/// Encoding a freshly decoded record sequence gives back the bytes it was read from.
pub proof fn lemma_encode_decoded(rs: Seq<RecordModel>, roots: Seq<usize>, close: Map<int, int>, term: bool)
    requires
        bracketed(rs, roots, Seq::empty(), close, term),
        types_ordered(rs),
        roots.len() == 1,
        rs.len() <= usize::MAX,
    ensures
        spec_encode(rs, roots) == stream_wire(rs),
{
    reveal(bracketed);
    let n = rs.len() as int;
    let hi = if term { n - 1 } else { n };
    assert(complete(rs, close)) by {
        assert forall|i: int| #![trigger rs[i]] tree_node(rs, i) implies close.contains_key(i) && closed_ok(rs, close, i) by {
            assert(!Seq::<usize>::empty().contains(i as usize));
        }
    }
    assert(tree_node(rs, roots[0] as int));
    lemma_list_span(rs, close, 0, hi, roots, walk_fuel(rs));
    assert(rs.take(0) =~= Seq::<RecordModel>::empty());
    assert(used_types(Seq::<RecordModel>::empty()) == Set::<i32>::empty());
    if term {
        assert(has_terminator(rs)) by {
            assert(rs[n - 1].tag == 49);
        }
        lemma_stream_one(rs[n - 1]);
        assert(record_wire(rs[n - 1]) =~= seq![49u8]);
        lemma_stream_concat(rs.subrange(0, n - 1), seq![rs[n - 1]]);
        assert(rs.subrange(0, n - 1) + seq![rs[n - 1]] =~= rs);
    } else {
        assert(!has_terminator(rs));
        assert(rs.subrange(0, n) =~= rs);
    }
}


/// Decoding an input and encoding the result gives back the input, byte for byte.
pub proof fn law_decode_encode(doc: Document, bytes: Seq<u8>, limits: Limits)
    requires
        doc.decoded_from(bytes, limits),
    ensures
        spec_encode(doc.rs(), doc.roots@) == bytes,
{
    let (close, term) = choose|close: Map<int, int>, term: bool| #[trigger]
        bracketed(doc.rs(), doc.roots@, Seq::empty(), close, term);
    lemma_encode_decoded(doc.rs(), doc.roots@, close, term);
}

} // verus!
