//! The store as a map from keys to values, and what sequences of mutations
//! do to it.
use vstd::prelude::*;

verus! {

/// A mutation of the store.
pub enum Op {
    Put { key: Seq<char>, value: Seq<char> },
    Delete { key: Seq<char> },
}

impl Op {
    pub open spec fn key(self) -> Seq<char> {
        match self {
            Op::Put { key, .. } => key,
            Op::Delete { key } => key,
        }
    }
}

/// What one mutation does: `set` writes a value, `remove` drops the key.
pub open spec fn step(m: Map<Seq<char>, Seq<char>>, op: Op) -> Map<Seq<char>, Seq<char>> {
    match op {
        Op::Put { key, value } => m.insert(key, value),
        Op::Delete { key } => m.remove(key),
    }
}

/// The store after the mutations `ops`, in order.
pub open spec fn run(m: Map<Seq<char>, Seq<char>>, ops: Seq<Op>) -> Map<Seq<char>, Seq<char>>
    decreases ops.len(),
{
    if ops.len() == 0 {
        m
    } else {
        step(run(m, ops.drop_last()), ops.last())
    }
}

/// Mutations of other keys leave a key as it was.
pub proof fn lemma_untouched(m: Map<Seq<char>, Seq<char>>, ops: Seq<Op>, k: Seq<char>)
    requires
        forall|i: int| 0 <= i < ops.len() ==> (#[trigger] ops[i]).key() != k,
    ensures
        run(m, ops).contains_key(k) == m.contains_key(k),
        m.contains_key(k) ==> run(m, ops)[k] == m[k],
    decreases ops.len(),
{
    if ops.len() > 0 {
        lemma_untouched(m, ops.drop_last(), k);
        assert(ops.last() == ops[ops.len() - 1]);
    }
}

proof fn lemma_run_concat(m: Map<Seq<char>, Seq<char>>, a: Seq<Op>, b: Seq<Op>)
    ensures
        run(m, a + b) == run(run(m, a), b),
    decreases b.len(),
{
    if b.len() == 0 {
        assert(a + b =~= a);
    } else {
        assert((a + b).drop_last() =~= a + b.drop_last());
        lemma_run_concat(m, a, b.drop_last());
    }
}

/// A store whose successive views each follow from the one before by a
/// mutation (as `set` and `remove` state of `LogStructured` and `KvStore`)
/// ends where `run` says.
pub proof fn lemma_views_run(views: Seq<Map<Seq<char>, Seq<char>>>, ops: Seq<Op>)
    requires
        views.len() == ops.len() + 1,
        forall|i: int| 0 <= i < ops.len() ==> views[i + 1] == step(views[i], #[trigger] ops[i]),
    ensures
        views.last() == run(views[0], ops),
    decreases ops.len(),
{
    if ops.len() > 0 {
        lemma_views_run(views.drop_last(), ops.drop_last());
        assert(views.drop_last().last() == views[views.len() - 2]);
        assert(ops.last() == ops[ops.len() - 1]);
    }
}

/// Read your writes: after `set(k, v)` and any mutations of other keys, the
/// store holds `v` under `k`.
pub proof fn lemma_read_your_writes(
    m: Map<Seq<char>, Seq<char>>,
    k: Seq<char>,
    v: Seq<char>,
    later: Seq<Op>,
)
    requires
        forall|i: int| 0 <= i < later.len() ==> (#[trigger] later[i]).key() != k,
    ensures
        run(m, seq![Op::Put { key: k, value: v }] + later).contains_key(k),
        run(m, seq![Op::Put { key: k, value: v }] + later)[k] == v,
{
    let first = seq![Op::Put { key: k, value: v }];
    lemma_run_concat(m, first, later);
    assert(first.drop_last() =~= Seq::<Op>::empty());
    assert(run(m, Seq::<Op>::empty()) == m);
    assert(first.last() == Op::Put { key: k, value: v });
    assert(run(m, first) == m.insert(k, v));
    lemma_untouched(run(m, first), later, k);
}

/// The last writer wins: after `set(k, v1)`, any mutations, and `set(k, v2)`,
/// the store holds `v2` under `k`.
pub proof fn lemma_last_writer_wins(
    m: Map<Seq<char>, Seq<char>>,
    k: Seq<char>,
    v1: Seq<char>,
    v2: Seq<char>,
    between: Seq<Op>,
)
    ensures
        run(m, seq![Op::Put { key: k, value: v1 }] + between + seq![Op::Put { key: k, value: v2 }])
            .contains_key(k),
        run(m, seq![Op::Put { key: k, value: v1 }] + between + seq![Op::Put { key: k, value: v2 }])[k]
            == v2,
{
    let ops = seq![Op::Put { key: k, value: v1 }] + between + seq![Op::Put { key: k, value: v2 }];
    assert(ops.drop_last() =~= seq![Op::Put { key: k, value: v1 }] + between);
    assert(ops.last() == Op::Put { key: k, value: v2 });
}

/// Remove hides: after `set(k, v)`, any mutations, and `remove(k)`, the store
/// does not hold `k`.
pub proof fn lemma_remove_hides(
    m: Map<Seq<char>, Seq<char>>,
    k: Seq<char>,
    v: Seq<char>,
    between: Seq<Op>,
)
    ensures
        !run(m, seq![Op::Put { key: k, value: v }] + between + seq![Op::Delete { key: k }])
            .contains_key(k),
{
    let ops = seq![Op::Put { key: k, value: v }] + between + seq![Op::Delete { key: k }];
    assert(ops.drop_last() =~= seq![Op::Put { key: k, value: v }] + between);
    assert(ops.last() == Op::Delete { key: k });
}

} // verus!
