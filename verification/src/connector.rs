//! Connecting the fault trees of a batch: basic events shared by all trees
//! (common-cause events), and the rows of the batch manifest.

use vstd::prelude::*;
use vstd::multiset::Multiset;

use crate::fault_tree::{inputs_defined, BasicEvent, FaultTree, Gate};
use crate::names::{entry_keys, has_entry, has_key, insert_name, strictly_sorted, text_views, NameMap};
use crate::rng::{draw_below, seeded_rng};
use crate::text::{
    decimal, lemma_decimal_injective, lemma_lex_irreflexive, lex_lt, owned, push_decimal, str_eq,
};

verus! {

/// A basic event that every tree of a batch holds under the same name.
#[derive(Debug, Clone, PartialEq, Eq)]
pub struct SharedEvent {
    pub name: String,
    /// The positions of the trees that hold it.
    pub tree_indices: Vec<usize>,
}

/// Connects the fault trees of a batch.
pub struct TreeConnector;

// ─── Renaming a basic event ──────────────────────────────────────────────────

/// `names` with every `from` replaced by `to`.
pub open spec fn replaced(names: Seq<Seq<char>>, from: Seq<char>, to: Seq<char>) -> Seq<Seq<char>> {
    names.map_values(|x: Seq<char>| if x == from { to } else { x })
}

/// `new_g` is `old_g` with input `from` renamed `to`; its inputs sorted,
/// each once.
pub open spec fn gate_renamed(old_g: Gate, new_g: Gate, from: Seq<char>, to: Seq<char>) -> bool {
    &&& new_g.name == old_g.name
    &&& new_g.gate_type == old_g.gate_type
    &&& strictly_sorted(text_views(new_g.inputs@))
    &&& text_views(new_g.inputs@).to_set() == replaced(text_views(old_g.inputs@), from, to).to_set()
}

/// Every gate of `new_m` is the one at the same position of `old_m` with
/// input `from` renamed `to`.
pub open spec fn gates_renamed(
    old_m: Seq<(Seq<char>, Gate)>,
    new_m: Seq<(Seq<char>, Gate)>,
    from: Seq<char>,
    to: Seq<char>,
) -> bool {
    &&& new_m.len() == old_m.len()
    &&& forall|p: int|
        0 <= p < new_m.len() ==> (#[trigger] new_m[p]).0 == old_m[p].0 && gate_renamed(
            old_m[p].1,
            new_m[p].1,
            from,
            to,
        )
}

/// The basic event named `from`, if there is one, is named `to` in `new_m`
/// (replacing the event named `to`, if any); the others are kept.
pub open spec fn events_renamed(
    old_m: Seq<(Seq<char>, BasicEvent)>,
    new_m: Seq<(Seq<char>, BasicEvent)>,
    from: Seq<char>,
    to: Seq<char>,
) -> bool {
    if has_key(old_m, from) {
        &&& exists|o: BasicEvent, nv: BasicEvent|
            #![trigger has_entry(old_m, from, o), has_entry(new_m, to, nv)]
            {
                &&& has_entry(old_m, from, o)
                &&& has_entry(new_m, to, nv)
                &&& nv.name@ == to
                &&& nv.probability == o.probability
                &&& forall|k: Seq<char>, v: BasicEvent|
                    #[trigger] has_entry(new_m, k, v) <==> ((k == to && v == nv) || (k != to && k
                        != from && has_entry(old_m, k, v)))
            }
        &&& new_m.len() == old_m.len() - if has_key(old_m, to) {
            1int
        } else {
            0int
        }
    } else {
        new_m == old_m
    }
}

/// `new_t` is `old_t` with basic event `from` renamed `to` everywhere.
pub open spec fn tree_renamed(old_t: FaultTree, new_t: FaultTree, from: Seq<char>, to: Seq<char>) -> bool {
    &&& new_t.name == old_t.name
    &&& new_t.top_gate == old_t.top_gate
    &&& new_t.house_events@ == old_t.house_events@
    &&& events_renamed(old_t.basic_events@, new_t.basic_events@, from, to)
    &&& gates_renamed(old_t.gates@, new_t.gates@, from, to)
}

/// Renaming a basic event of a tree keeps every gate input defined: an
/// input that named the event names it under its new name.
pub proof fn law_rename_keeps_inputs_defined(
    old_t: FaultTree,
    new_t: FaultTree,
    from: Seq<char>,
    to: Seq<char>,
)
    requires
        tree_renamed(old_t, new_t, from, to),
        has_key(old_t.basic_events@, from),
        inputs_defined(old_t),
    ensures
        inputs_defined(new_t),
{
    let (o, nv) = choose|o: BasicEvent, nv: BasicEvent|
        #![trigger has_entry(old_t.basic_events@, from, o), has_entry(new_t.basic_events@, to, nv)]
        {
            &&& has_entry(old_t.basic_events@, from, o)
            &&& has_entry(new_t.basic_events@, to, nv)
            &&& nv.name@ == to
            &&& nv.probability == o.probability
            &&& forall|k: Seq<char>, v: BasicEvent|
                #[trigger] has_entry(new_t.basic_events@, k, v) <==> ((k == to && v == nv) || (k != to
                    && k != from && has_entry(old_t.basic_events@, k, v)))
        };
    assert(has_key(new_t.basic_events@, to)) by {
        let i = choose|i: int| 0 <= i < new_t.basic_events@.len() && #[trigger] new_t.basic_events@[i] == (to, nv);
        assert(new_t.basic_events@[i].0 == to);
    }
    assert forall|p: int, q: int|
        0 <= p < new_t.gates@.len() && 0 <= q < new_t.gates@[p].1.inputs@.len() implies {
        let x = (#[trigger] new_t.gates@[p].1.inputs@[q])@;
        has_key(new_t.gates@, x) || has_key(new_t.basic_events@, x)
    } by {
        let x = new_t.gates@[p].1.inputs@[q]@;
        let old_inputs = text_views(old_t.gates@[p].1.inputs@);
        let new_inputs = text_views(new_t.gates@[p].1.inputs@);
        assert(new_t.gates@[p].0 == old_t.gates@[p].0 && gate_renamed(
            old_t.gates@[p].1,
            new_t.gates@[p].1,
            from,
            to,
        ));
        assert(new_inputs[q] == x);
        assert(new_inputs.to_set().contains(x));
        assert(replaced(old_inputs, from, to).contains(x));
        let r = choose|r: int| 0 <= r < old_inputs.len() && replaced(old_inputs, from, to)[r] == x;
        let y = old_inputs[r];
        assert(y == old_t.gates@[p].1.inputs@[r]@);
        if y != from && x != to {
            assert(x == y);
            assert(has_key(old_t.gates@, y) || has_key(old_t.basic_events@, y));
            if has_key(old_t.gates@, y) {
                let i = choose|i: int| 0 <= i < old_t.gates@.len() && (#[trigger] old_t.gates@[i]).0 == y;
                assert(new_t.gates@[i].0 == old_t.gates@[i].0);
            } else {
                let i = choose|i: int| 0 <= i < old_t.basic_events@.len() && (
                #[trigger] old_t.basic_events@[i]).0 == y;
                assert(has_entry(old_t.basic_events@, y, old_t.basic_events@[i].1));
                assert(has_entry(new_t.basic_events@, y, old_t.basic_events@[i].1));
                let j = choose|j: int| 0 <= j < new_t.basic_events@.len() && #[trigger] new_t.basic_events@[j]
                    == (y, old_t.basic_events@[i].1);
                assert(new_t.basic_events@[j].0 == y);
            }
        }
    }
}

/// The inputs of a gate with `from` renamed `to`, sorted, each once.
fn renamed_inputs(inputs: &Vec<String>, from: &str, to: &str) -> (r: Vec<String>)
    ensures
        strictly_sorted(text_views(r@)),
        text_views(r@).to_set() == replaced(text_views(inputs@), from@, to@).to_set(),
{
    let ghost all = replaced(text_views(inputs@), from@, to@);
    let mut r: Vec<String> = Vec::new();
    let mut i: usize = 0;
    while i < inputs.len()
        invariant
            i <= inputs@.len(),
            all == replaced(text_views(inputs@), from@, to@),
            strictly_sorted(text_views(r@)),
            text_views(r@).to_set() == all.take(i as int).to_set(),
        decreases inputs@.len() - i,
    {
        let name = if str_eq(inputs[i].as_str(), from) {
            owned(to)
        } else {
            inputs[i].clone()
        };
        assert(name@ == all[i as int]);
        insert_name(&mut r, name);
        assert(all.take(i + 1) =~= all.take(i as int).push(all[i as int]));
        assert(text_views(r@).to_set() =~= all.take(i + 1).to_set()) by {
            broadcast use vstd::seq_lib::group_seq_properties;
        }
        i = i + 1;
    }
    assert(all.take(inputs@.len() as int) =~= all);
    r
}

impl TreeConnector {
    /// Renames basic event `from` of `tree` to `to`: the event itself (when
    /// the tree has it) and every gate input named `from`.  Every gate's
    /// inputs end up sorted, each once.  Nothing changes when the two names
    /// are equal.
    pub fn rename_basic_event(tree: &mut FaultTree, from: &str, to: &str)
        ensures
            from@ == to@ ==> *final(tree) == *old(tree),
            from@ != to@ ==> tree_renamed(*old(tree), *final(tree), from@, to@),
    {
        if str_eq(from, to) {
            return;
        }
        let ghost old_events = tree.basic_events@;
        let removed = tree.basic_events.remove(from);
        match removed {
            Some(be) => {
                let ghost mid = tree.basic_events@;
                let renamed = BasicEvent { name: owned(to), probability: be.probability };
                let ghost nv = renamed;
                tree.basic_events.insert(owned(to), renamed);
                proof {
                    assert(has_key(old_events, from@)) by {
                        let i = choose|i: int| 0 <= i < old_events.len() && #[trigger] old_events[i] == (from@, be);
                        assert(old_events[i].0 == from@);
                    }
                    assert(has_entry(tree.basic_events@, to@, nv));
                    assert(has_key(mid, to@) == has_key(old_events, to@)) by {
                        if has_key(mid, to@) {
                            let i = choose|i: int| 0 <= i < mid.len() && (#[trigger] mid[i]).0 == to@;
                            assert(has_entry(mid, to@, mid[i].1));
                            assert(has_entry(old_events, to@, mid[i].1));
                            let q = choose|q: int| 0 <= q < old_events.len() && #[trigger] old_events[q] == (to@, mid[i].1);
                            assert(old_events[q].0 == to@);
                        }
                        if has_key(old_events, to@) {
                            let i = choose|i: int| 0 <= i < old_events.len() && (#[trigger] old_events[i]).0 == to@;
                            assert(has_entry(old_events, to@, old_events[i].1));
                            assert(has_entry(mid, to@, old_events[i].1));
                            let q = choose|q: int| 0 <= q < mid.len() && #[trigger] mid[q] == (to@, old_events[i].1);
                            assert(mid[q].0 == to@);
                        }
                    }
                    assert(has_entry(old_events, from@, be));
                    assert(events_renamed(old_events, tree.basic_events@, from@, to@));
                }
            },
            None => {},
        }
        let ghost events_after = tree.basic_events@;
        assert(events_renamed(old_events, events_after, from@, to@));
        let ghost old_gates = tree.gates@;
        let n = tree.gates.len();
        let mut p: usize = 0;
        while p < n
            invariant
                n == old_gates.len(),
                tree.gates@.len() == n,
                p <= n,
                forall|q: int|
                    0 <= q < p ==> (#[trigger] tree.gates@[q]).0 == old_gates[q].0 && gate_renamed(
                        old_gates[q].1,
                        tree.gates@[q].1,
                        from@,
                        to@,
                    ),
                forall|q: int| p <= q < n ==> #[trigger] tree.gates@[q] == old_gates[q],
                tree.name == old(tree).name,
                tree.top_gate == old(tree).top_gate,
                tree.house_events@ == old(tree).house_events@,
                tree.basic_events@ == events_after,
            decreases n - p,
        {
            let g = tree.gates.value_at(p);
            let inputs = renamed_inputs(&g.inputs, from, to);
            let gate = Gate { name: g.name.clone(), gate_type: g.gate_type, inputs };
            tree.gates.set_value_at(p, gate);
            p = p + 1;
        }
        assert(gates_renamed(old_gates, tree.gates@, from@, to@));
    }

    /// Makes basic events common to all `trees`: with `m` the smallest
    /// number of basic events of a tree and `n` the count that
    /// `shared_count_for(m)` gives (at most `m`), round `k` of `n` picks,
    /// in each tree, at random (ChaCha8 seeded with `seed`, names in
    /// code-point order) a basic event that no earlier round shared, and
    /// renames it `SHARED-BE-{k+1}`.  Nothing happens with fewer than two
    /// trees or when a tree has no basic event.
    ///
    /// So every shared event stays in every tree, unless a tree already had
    /// a basic event under one of the shared names.
    pub fn promote_shared_events<C: Fn(usize) -> usize>(
        trees: &mut Vec<FaultTree>,
        shared_count_for: &C,
        seed: u64,
    ) -> (r: Vec<SharedEvent>)
        requires
            forall|m: usize| shared_count_for.requires((m,)),
        ensures
            final(trees)@.len() == old(trees)@.len(),
            old(trees)@.len() < 2 || min_basic_events(old(trees)@) == 0 ==> r@.len() == 0
                && final(trees)@ == old(trees)@,
            old(trees)@.len() >= 2 && min_basic_events(old(trees)@) > 0 ==> exists|c: usize|
                #[trigger] shared_count_for.ensures((min_basic_events(old(trees)@) as usize,), c)
                    && r@.len() == if c < min_basic_events(old(trees)@) {
                    c as int
                } else {
                    min_basic_events(old(trees)@) as int
                },
            forall|k: int|
                0 <= k < r@.len() ==> (#[trigger] r@[k]).name@ == shared_event_name(k as nat)
                    && r@[k].tree_indices@ == Seq::new(old(trees)@.len(), |t: int| t as usize),
            exists|stages: Seq<Seq<FaultTree>>, picks: Seq<Seq<Option<Seq<char>>>>|
                #[trigger] promoted_in_rounds(stages, picks) && picks.len() == r@.len() && stages[0]
                    == old(trees)@ && stages[r@.len() as int] == final(trees)@,
            r@.len() == 0 ==> final(trees)@ == old(trees)@,
            (forall|u: int, j: nat|
                0 <= u < old(trees)@.len() && j < r@.len() ==> !#[trigger] has_key(
                    old(trees)@[u].basic_events@,
                    shared_event_name(j),
                )) ==> forall|u: int, j: nat|
                0 <= u < final(trees)@.len() && j < r@.len() ==> #[trigger] has_key(
                    final(trees)@[u].basic_events@,
                    shared_event_name(j),
                ),
            forall|t: int|
                0 <= t < final(trees)@.len() ==> {
                    &&& (#[trigger] final(trees)@[t]).name == old(trees)@[t].name
                    &&& final(trees)@[t].top_gate == old(trees)@[t].top_gate
                    &&& final(trees)@[t].house_events@ == old(trees)@[t].house_events@
                    &&& entry_keys(final(trees)@[t].gates@) == entry_keys(old(trees)@[t].gates@)
                    &&& old(trees)@[t].basic_events@.len() - r@.len() <= final(trees)@[t].basic_events@.len()
                    &&& final(trees)@[t].basic_events@.len() <= old(trees)@[t].basic_events@.len()
                    &&& inputs_defined(old(trees)@[t]) ==> inputs_defined(final(trees)@[t])
                },
    {
        let mut shared_events: Vec<SharedEvent> = Vec::new();
        let count = trees.len();
        if count < 2 {
            assert(promoted_in_rounds(seq![trees@], Seq::<Seq<Option<Seq<char>>>>::empty()));
            return shared_events;
        }
        let mut min_events = trees[0].basic_events.len();
        let mut t: usize = 1;
        while t < count
            invariant
                count == trees@.len(),
                1 <= t <= count,
                min_events == min_basic_events(trees@.take(t as int)),
            decreases count - t,
        {
            assert(trees@.take(t + 1).drop_last() =~= trees@.take(t as int));
            let here = trees[t].basic_events.len();
            if here < min_events {
                min_events = here;
            }
            t = t + 1;
        }
        assert(trees@.take(count as int) =~= trees@);
        if min_events == 0 {
            assert(promoted_in_rounds(seq![trees@], Seq::<Seq<Option<Seq<char>>>>::empty()));
            return shared_events;
        }
        let wanted = shared_count_for(min_events);
        let shared_count = if wanted < min_events {
            wanted
        } else {
            min_events
        };
        let ghost initial = trees@;
        proof {
            lemma_min_basic_events(initial);
        }
        let ghost fresh = forall|u: int, j: nat|
            0 <= u < count && j < shared_count ==> !#[trigger] has_key(
                initial[u].basic_events@,
                shared_event_name(j),
            );
        let ghost mut stages: Seq<Seq<FaultTree>> = seq![initial];
        let ghost mut picks: Seq<Seq<Option<Seq<char>>>> = Seq::empty();
        let mut rng = seeded_rng(seed);
        let mut idx: usize = 0;
        while idx < shared_count
            invariant
                trees@.len() == count,
                initial.len() == count,
                initial == old(trees)@,
                count >= 2,
                shared_count <= min_events,
                shared_count_for.ensures((min_events,), wanted),
                shared_count == if wanted < min_events {
                    wanted
                } else {
                    min_events
                },
                min_events == min_basic_events(initial),
                forall|u: int| 0 <= u < count ==> min_events <= (#[trigger] initial[u]).basic_events@.len(),
                idx <= shared_count,
                shared_events@.len() == idx,
                forall|k: int|
                    0 <= k < idx ==> (#[trigger] shared_events@[k]).name@ == shared_event_name(k as nat)
                        && shared_events@[k].tree_indices@ == Seq::new(count as nat, |u: int| u as usize),
                stages.len() == idx + 1,
                picks.len() == idx,
                fresh == (forall|w: int, j: nat|
                    0 <= w < count && j < shared_count ==> !#[trigger] has_key(
                        initial[w].basic_events@,
                        shared_event_name(j),
                    )),
                stages[0] == initial,
                stages[idx as int] == trees@,
                promoted_in_rounds(stages, picks),
                forall|u: int|
                    0 <= u < count ==> {
                        &&& (#[trigger] trees@[u]).name == initial[u].name
                        &&& trees@[u].top_gate == initial[u].top_gate
                        &&& trees@[u].house_events@ == initial[u].house_events@
                        &&& entry_keys(trees@[u].gates@) == entry_keys(initial[u].gates@)
                        &&& initial[u].basic_events@.len() - idx <= trees@[u].basic_events@.len()
                            <= initial[u].basic_events@.len()
                        &&& inputs_defined(initial[u]) ==> inputs_defined(trees@[u])
                        &&& fresh ==> trees@[u].basic_events@.len() == initial[u].basic_events@.len()
                        &&& fresh ==> forall|j: nat|
                            j < shared_count ==> (has_key(
                                trees@[u].basic_events@,
                                #[trigger] shared_event_name(j),
                            ) <==> j < idx)
                    },
            decreases shared_count - idx,
        {
            let mut shared_name = owned("SHARED-BE-");
            push_decimal(&mut shared_name, (idx + 1) as u64);
            let ghost round_start = trees@;
            let ghost mut round_picks: Seq<Option<Seq<char>>> = Seq::empty();
            let mut u: usize = 0;
            while u < count
                invariant
                    trees@.len() == count,
                    initial.len() == count,
                    round_start.len() == count,
                    idx < shared_count <= min_events,
                    shared_name@ == shared_event_name(idx as nat),
                    shared_events@.len() == idx,
                    forall|k: int|
                        0 <= k < idx ==> (#[trigger] shared_events@[k]).name@ == shared_event_name(
                            k as nat,
                        ),
                    forall|v: int| 0 <= v < count ==> min_events <= (#[trigger] initial[v]).basic_events@.len(),
                    u <= count,
                    stages.len() == idx + 1,
                    picks.len() == idx,
                    stages[idx as int] == round_start,
                    promoted_in_rounds(stages, picks),
                    fresh == (forall|w: int, j: nat|
                        0 <= w < count && j < shared_count ==> !#[trigger] has_key(
                            initial[w].basic_events@,
                            shared_event_name(j),
                        )),
                    round_picks.len() == u,
                    forall|v: int|
                        0 <= v < u ==> promotion_step(
                            round_start[v],
                            #[trigger] trees@[v],
                            round_picks[v],
                            idx as nat,
                        ),
                    forall|v: int| u <= v < count ==> #[trigger] trees@[v] == round_start[v],
                    forall|v: int|
                        0 <= v < count ==> {
                            &&& (#[trigger] trees@[v]).name == initial[v].name
                            &&& trees@[v].top_gate == initial[v].top_gate
                            &&& trees@[v].house_events@ == initial[v].house_events@
                            &&& entry_keys(trees@[v].gates@) == entry_keys(initial[v].gates@)
                            &&& initial[v].basic_events@.len() - idx - (if v < u {
                                1int
                            } else {
                                0int
                            }) <= trees@[v].basic_events@.len() <= initial[v].basic_events@.len()
                            &&& inputs_defined(initial[v]) ==> inputs_defined(trees@[v])
                            &&& fresh ==> trees@[v].basic_events@.len() == initial[v].basic_events@.len()
                            &&& fresh ==> forall|j: nat|
                                j < shared_count ==> (has_key(
                                    trees@[v].basic_events@,
                                    #[trigger] shared_event_name(j),
                                ) <==> (j < idx || (j == idx && v < u)))
                        },
                decreases count - u,
            {
                let names = trees[u].basic_events.keys();
                trees[u].basic_events.ordered();
                let ghost before = trees@[u as int];
                assert(text_views(names@).len() == names@.len());
                assert(entry_keys(before.basic_events@).len() == before.basic_events@.len());
                // The names that no earlier round shared.
                let mut candidates: Vec<String> = Vec::new();
                let mut q: usize = 0;
                while q < names.len()
                    invariant
                        q <= names@.len(),
                        names@.len() == before.basic_events@.len(),
                        text_views(names@) == entry_keys(before.basic_events@),
                        shared_events@.len() == idx,
                        forall|k: int|
                            0 <= k < idx ==> (#[trigger] shared_events@[k]).name@ == shared_event_name(
                                k as nat,
                            ),
                        forall|m: int|
                            0 <= m < candidates@.len() ==> has_key(
                                before.basic_events@,
                                (#[trigger] candidates@[m])@,
                            ) && !is_earlier_shared(candidates@[m]@, idx as nat),
                        candidates@.len() == 0 ==> forall|m: int|
                            0 <= m < q ==> is_earlier_shared((#[trigger] names@[m])@, idx as nat),
                    decreases names@.len() - q,
                {
                    assert(text_views(names@)[q as int] == entry_keys(before.basic_events@)[q as int]);
                    assert(text_views(names@)[q as int] == names@[q as int]@);
                    assert(entry_keys(before.basic_events@)[q as int] == before.basic_events@[q as int].0);
                    if !shared_already(&shared_events, names[q].as_str()) {
                        let ghost prev = candidates@;
                        candidates.push(names[q].clone());
                        assert forall|m: int| 0 <= m < candidates@.len() implies has_key(
                            before.basic_events@,
                            (#[trigger] candidates@[m])@,
                        ) && !is_earlier_shared(candidates@[m]@, idx as nat) by {
                            if m < prev.len() {
                                assert(candidates@[m] == prev[m]);
                            } else {
                                assert(candidates@[m]@ == names@[q as int]@);
                                assert(before.basic_events@[q as int].0 == names@[q as int]@);
                            }
                        }
                    }
                    q = q + 1;
                }
                let ghost mut pick: Option<Seq<char>> = None;
                if candidates.len() > 0 {
                    let chosen = draw_below(&mut rng, candidates.len());
                    let picked = candidates[chosen].clone();
                    proof {
                        assert(has_key(before.basic_events@, candidates@[chosen as int]@));
                        pick = Some(picked@);
                    }
                    Self::rename_basic_event(&mut trees[u], picked.as_str(), shared_name.as_str());
                    trees[u].basic_events.ordered();
                    proof {
                        let after = trees@[u as int];
                        if picked@ != shared_name@ {
                            assert(tree_renamed(before, after, picked@, shared_name@));
                            let (o, nv) = choose|o: BasicEvent, nv: BasicEvent|
                                #![trigger has_entry(before.basic_events@, picked@, o), has_entry(after.basic_events@, shared_name@, nv)]
                                {
                                    &&& has_entry(before.basic_events@, picked@, o)
                                    &&& has_entry(after.basic_events@, shared_name@, nv)
                                    &&& nv.name@ == shared_name@
                                    &&& nv.probability == o.probability
                                    &&& forall|k: Seq<char>, v: BasicEvent|
                                        #[trigger] has_entry(after.basic_events@, k, v) <==> ((k == shared_name@ && v
                                            == nv) || (k != shared_name@ && k != picked@ && has_entry(
                                            before.basic_events@,
                                            k,
                                            v,
                                        )))
                                };
                            lemma_keys_after_rename(before.gates@, after.gates@, picked@, shared_name@);
                            if inputs_defined(before) {
                                law_rename_keeps_inputs_defined(before, after, picked@, shared_name@);
                            }
                            if fresh {
                                assert forall|j: nat| j < shared_count implies (has_key(
                                    after.basic_events@,
                                    #[trigger] shared_event_name(j),
                                ) <==> j <= idx) by {
                                    lemma_key_after_rename(
                                        before.basic_events@,
                                        after.basic_events@,
                                        picked@,
                                        shared_name@,
                                        nv,
                                        shared_event_name(j),
                                    );
                                    if j != idx {
                                        lemma_shared_names_distinct(j, idx as nat);
                                    }
                                    if j < idx {
                                        assert(picked@ != shared_event_name(j));
                                    }
                                }
                            }
                        } else {
                            if fresh {
                                assert(has_key(before.basic_events@, shared_event_name(idx as nat)));
                            }
                        }
                    }
                } else {
                    proof {
                        assert forall|x: Seq<char>| #[trigger] has_key(before.basic_events@, x) implies is_earlier_shared(
                            x,
                            idx as nat,
                        ) by {
                            let i = choose|i: int| 0 <= i < before.basic_events@.len() && (#[trigger] before.basic_events@[i]).0 == x;
                            assert(entry_keys(before.basic_events@)[i] == x);
                            assert(names@[i]@ == x);
                        }
                        if fresh {
                            lemma_strictly_sorted_distinct(entry_keys(before.basic_events@));
                            assert forall|i: int| 0 <= i < entry_keys(before.basic_events@).len() implies is_earlier_shared(
                                #[trigger] entry_keys(before.basic_events@)[i],
                                idx as nat,
                            ) by {
                                assert(names@[i]@ == entry_keys(before.basic_events@)[i]);
                            }
                            lemma_few_shared_names(entry_keys(before.basic_events@), idx as nat);
                        }
                    }
                }
                proof {
                    let ghost prev_picks = round_picks;
                    round_picks = round_picks.push(pick);
                    assert(round_picks[u as int] == pick);
                    assert forall|v: int| 0 <= v < u implies round_picks[v] == prev_picks[v] by {}
                }
                u = u + 1;
            }
            let mut indices: Vec<usize> = Vec::new();
            let mut v: usize = 0;
            while v < count
                invariant
                    v <= count,
                    indices@ == Seq::new(v as nat, |w: int| w as usize),
                decreases count - v,
            {
                indices.push(v);
                assert(indices@ =~= Seq::new((v + 1) as nat, |w: int| w as usize));
                v = v + 1;
            }
            shared_events.push(SharedEvent { name: shared_name, tree_indices: indices });
            proof {
                assert forall|w: int| 0 <= w < round_start.len() implies promotion_step(
                    round_start[w],
                    trees@[w],
                    #[trigger] round_picks[w],
                    idx as nat,
                ) by {
                    assert(promotion_step(round_start[w], trees@[w], round_picks[w], idx as nat));
                }
                lemma_rounds_extend(stages, picks, trees@, round_picks);
                stages = stages.push(trees@);
                picks = picks.push(round_picks);
            }
            idx = idx + 1;
        }
        assert(min_basic_events(old(trees)@) as usize == min_events);
        assert(shared_count_for.ensures((min_basic_events(old(trees)@) as usize,), wanted));
        assert(promoted_in_rounds(stages, picks));
        shared_events
    }
}

/// The name of the `k`-th shared basic event (zero-based):
/// `SHARED-BE-{k+1}`.
pub open spec fn shared_event_name(k: nat) -> Seq<char> {
    "SHARED-BE-"@ + decimal(k + 1)
}

/// `after` and `shared` are what promoting shared basic events makes of the
/// trees `before`: nothing with fewer than two trees or a tree without basic
/// events; else `min(c, m)` rounds, with `m` the smallest number of basic
/// events of a tree and `c` a count that `shared_count_for(m)` gives, round
/// `k` naming `SHARED-BE-{k+1}` in every tree.
pub open spec fn promotes<C: Fn(usize) -> usize>(
    before: Seq<FaultTree>,
    after: Seq<FaultTree>,
    shared: Seq<SharedEvent>,
    shared_count_for: C,
) -> bool {
    &&& before.len() < 2 || min_basic_events(before) == 0 ==> shared.len() == 0
    &&& before.len() >= 2 && min_basic_events(before) > 0 ==> exists|c: usize|
        #[trigger] shared_count_for.ensures((min_basic_events(before) as usize,), c) && shared.len()
            == if c < min_basic_events(before) {
            c as int
        } else {
            min_basic_events(before) as int
        }
    &&& forall|k: int|
        0 <= k < shared.len() ==> (#[trigger] shared[k]).name@ == shared_event_name(k as nat)
            && shared[k].tree_indices@ == Seq::new(before.len(), |t: int| t as usize)
    &&& exists|stages: Seq<Seq<FaultTree>>, picks: Seq<Seq<Option<Seq<char>>>>|
        #[trigger] promoted_in_rounds(stages, picks) && picks.len() == shared.len() && stages[0]
            == before && stages[shared.len() as int] == after
}

/// `name` is the name of one of the first `k` shared basic events.
pub open spec fn is_earlier_shared(name: Seq<char>, k: nat) -> bool {
    exists|j: nat| j < k && name == #[trigger] shared_event_name(j)
}

/// Round `k` of the promotion in one tree: `after` is `before` with the
/// basic event `pick`, which no earlier round shared, renamed
/// `SHARED-BE-{k+1}`; with no pick, every basic event of `before` was shared
/// by an earlier round and the tree stays as it is.
pub open spec fn promotion_step(before: FaultTree, after: FaultTree, pick: Option<Seq<char>>, k: nat) -> bool {
    match pick {
        Some(x) => {
            &&& has_key(before.basic_events@, x)
            &&& !is_earlier_shared(x, k)
            &&& if x == shared_event_name(k) {
                after == before
            } else {
                &&& tree_renamed(before, after, x, shared_event_name(k))
                &&& strictly_sorted(entry_keys(after.basic_events@))
            }
        },
        None => {
            &&& forall|x: Seq<char>| #[trigger] has_key(before.basic_events@, x) ==> is_earlier_shared(x, k)
            &&& after == before
        },
    }
}

/// `after` is what round `k` of the promotion makes of the trees `before`,
/// tree `u` renaming its basic event `round[u]`.
pub open spec fn round_fits(
    before: Seq<FaultTree>,
    after: Seq<FaultTree>,
    round: Seq<Option<Seq<char>>>,
    k: nat,
) -> bool {
    &&& after.len() == before.len()
    &&& round.len() == before.len()
    &&& forall|u: int|
        0 <= u < before.len() ==> promotion_step(before[u], after[u], #[trigger] round[u], k)
}

/// `stages[k + 1]` is what round `k` of the promotion makes of the trees
/// `stages[k]`, tree `u` renaming its basic event `picks[k][u]`.
pub open spec fn promoted_in_rounds(stages: Seq<Seq<FaultTree>>, picks: Seq<Seq<Option<Seq<char>>>>) -> bool {
    &&& stages.len() == picks.len() + 1
    &&& forall|k: int|
        0 <= k < picks.len() ==> round_fits(stages[k], stages[k + 1], #[trigger] picks[k], k as nat)
}

/// Distinct shared basic events have distinct names.
proof fn lemma_shared_names_distinct(a: nat, b: nat)
    requires
        a != b,
    ensures
        shared_event_name(a) != shared_event_name(b),
{
    if shared_event_name(a) == shared_event_name(b) {
        let p = "SHARED-BE-"@;
        assert(shared_event_name(a).subrange(p.len() as int, shared_event_name(a).len() as int) =~= decimal(a + 1));
        assert(shared_event_name(b).subrange(p.len() as int, shared_event_name(b).len() as int) =~= decimal(b + 1));
        lemma_decimal_injective(a + 1, b + 1);
    }
}

/// Names that are all shared by the first `k` rounds, none twice, are at
/// most `k`.
proof fn lemma_few_shared_names(names: Seq<Seq<char>>, k: nat)
    requires
        names.no_duplicates(),
        forall|i: int| 0 <= i < names.len() ==> is_earlier_shared(#[trigger] names[i], k),
    ensures
        names.len() <= k,
{
    names.unique_seq_to_set();
    let range = vstd::set_lib::set_int_range(0, k as int);
    let f = |j: int| shared_event_name(j as nat);
    let image = range.map(f);
    vstd::set_lib::lemma_int_range(0, k as int);
    vstd::set_lib::lemma_map_size_bound(range, image, f);
    assert forall|x: Seq<char>| names.to_set().contains(x) implies image.contains(x) by {
        let i = choose|i: int| 0 <= i < names.len() && names[i] == x;
        assert(is_earlier_shared(names[i], k));
        let j = choose|j: nat| j < k && names[i] == #[trigger] shared_event_name(j);
        assert(range.contains(j as int));
        assert(f(j as int) == x);
    }
    vstd::set_lib::lemma_len_subset(names.to_set(), image);
}

/// A strictly sorted list of names holds no name twice.
proof fn lemma_strictly_sorted_distinct(s: Seq<Seq<char>>)
    requires
        strictly_sorted(s),
    ensures
        s.no_duplicates(),
{
    assert forall|i: int, j: int| 0 <= i < s.len() && 0 <= j < s.len() && i != j implies s[i] != s[j] by {
        lemma_lex_irreflexive(s[i]);
        if i < j {
            assert(lex_lt(s[i], s[j]));
        } else {
            assert(lex_lt(s[j], s[i]));
        }
    }
}

/// After a rename whose entries are as `events_renamed` states, a name is a
/// key when it is the new name, or an old key other than the renamed one.
proof fn lemma_key_after_rename(
    before: Seq<(Seq<char>, BasicEvent)>,
    after: Seq<(Seq<char>, BasicEvent)>,
    from: Seq<char>,
    to: Seq<char>,
    nv: BasicEvent,
    k: Seq<char>,
)
    requires
        forall|k: Seq<char>, v: BasicEvent|
            #[trigger] has_entry(after, k, v) <==> ((k == to && v == nv) || (k != to && k != from
                && has_entry(before, k, v))),
    ensures
        has_key(after, k) <==> (k == to || (k != from && has_key(before, k))),
{
    if has_key(after, k) {
        let i = choose|i: int| 0 <= i < after.len() && (#[trigger] after[i]).0 == k;
        assert(after[i] == (k, after[i].1));
        assert(has_entry(after, k, after[i].1));
        if k != to {
            assert(has_entry(before, k, after[i].1));
            let q = choose|q: int| 0 <= q < before.len() && #[trigger] before[q] == (k, after[i].1);
            assert(before[q].0 == k);
        }
    }
    if k == to {
        assert(has_entry(after, to, nv));
        let q = choose|q: int| 0 <= q < after.len() && #[trigger] after[q] == (to, nv);
        assert(after[q].0 == k);
    }
    if k != from && k != to && has_key(before, k) {
        let i = choose|i: int| 0 <= i < before.len() && (#[trigger] before[i]).0 == k;
        assert(before[i] == (k, before[i].1));
        assert(has_entry(before, k, before[i].1));
        assert(has_entry(after, k, before[i].1));
        let q = choose|q: int| 0 <= q < after.len() && #[trigger] after[q] == (k, before[i].1);
        assert(after[q].0 == k);
    }
}

/// Whether `name` is the name of one of `shared`, the events shared by the
/// rounds so far.
fn shared_already(shared: &Vec<SharedEvent>, name: &str) -> (r: bool)
    requires
        forall|k: int|
            0 <= k < shared@.len() ==> (#[trigger] shared@[k]).name@ == shared_event_name(k as nat),
    ensures
        r == is_earlier_shared(name@, shared@.len()),
{
    let mut k: usize = 0;
    while k < shared.len()
        invariant
            k <= shared@.len(),
            forall|j: int|
                0 <= j < shared@.len() ==> (#[trigger] shared@[j]).name@ == shared_event_name(j as nat),
            forall|j: nat| j < k ==> name@ != #[trigger] shared_event_name(j),
        decreases shared@.len() - k,
    {
        if str_eq(shared[k].name.as_str(), name) {
            assert(name@ == shared_event_name(k as nat));
            return true;
        }
        k = k + 1;
    }
    false
}

/// One more round extends the rounds of a promotion.
proof fn lemma_rounds_extend(
    stages: Seq<Seq<FaultTree>>,
    picks: Seq<Seq<Option<Seq<char>>>>,
    next: Seq<FaultTree>,
    round: Seq<Option<Seq<char>>>,
)
    requires
        promoted_in_rounds(stages, picks),
        next.len() == stages.last().len(),
        round.len() == stages.last().len(),
        forall|u: int|
            0 <= u < next.len() ==> promotion_step(
                stages.last()[u],
                next[u],
                #[trigger] round[u],
                picks.len(),
            ),
    ensures
        promoted_in_rounds(stages.push(next), picks.push(round)),
{
    let s2 = stages.push(next);
    let p2 = picks.push(round);
    assert forall|k: int| 0 <= k < p2.len() implies round_fits(s2[k], s2[k + 1], #[trigger] p2[k], k as nat) by {
        if k < picks.len() {
            assert(p2[k] == picks[k]);
            assert(s2[k] == stages[k]);
            assert(s2[k + 1] == stages[k + 1]);
            assert(round_fits(stages[k], stages[k + 1], picks[k], k as nat));
        } else {
            assert(s2[k] == stages.last());
            assert(s2[k + 1] == next);
            assert(p2[k] == round);
        }
    }
}

/// Every gate's inputs are in strict code-point order.
pub open spec fn inputs_sorted(t: FaultTree) -> bool {
    forall|p: int| 0 <= p < t.gates@.len() ==> strictly_sorted(text_views((#[trigger] t.gates@[p]).1.inputs@))
}

/// Every basic event carries the name it is kept under.
pub open spec fn names_match_keys(t: FaultTree) -> bool {
    forall|i: int|
        0 <= i < t.basic_events@.len() ==> (#[trigger] t.basic_events@[i]).1.name@ == t.basic_events@[i].0
}

/// `b` has the name, top gate and house events of `a`, and its gates are
/// those of `a`, in order, with their names and types.
pub open spec fn same_frame(a: FaultTree, b: FaultTree) -> bool {
    &&& b.name == a.name
    &&& b.top_gate == a.top_gate
    &&& b.house_events@ == a.house_events@
    &&& b.gates@.len() == a.gates@.len()
    &&& forall|p: int|
        0 <= p < a.gates@.len() ==> {
            &&& (#[trigger] b.gates@[p]).0 == a.gates@[p].0
            &&& b.gates@[p].1.name == a.gates@[p].1.name
            &&& b.gates@[p].1.gate_type == a.gates@[p].1.gate_type
        }
}

/// No basic event of `t` has the name of shared event `j`, for `from <= j < to`.
pub open spec fn shared_names_free(t: FaultTree, from: nat, to: nat) -> bool {
    forall|j: nat| from <= j < to ==> !has_key(t.basic_events@, #[trigger] shared_event_name(j))
}

/// No gate of `t` has the name of one of the first `n` shared events.
pub open spec fn gate_names_free(t: FaultTree, n: nat) -> bool {
    forall|j: nat| j < n ==> !has_key(t.gates@, #[trigger] shared_event_name(j))
}

/// Replacing a name by one that does not occur keeps names distinct.
proof fn lemma_replaced_distinct(names: Seq<Seq<char>>, from: Seq<char>, to: Seq<char>)
    requires
        names.no_duplicates(),
        !names.contains(to),
    ensures
        replaced(names, from, to).no_duplicates(),
{
    let r = replaced(names, from, to);
    assert forall|i: int, j: int| 0 <= i < r.len() && 0 <= j < r.len() && i != j implies r[i] != r[j] by {
        assert(names[i] != names[j]);
        if names[i] == from {
            assert(names[j] != to);
        } else if names[j] == from {
            assert(names[i] != to);
        }
    }
}

/// A renamed gate keeps its number of inputs when the new name is not
/// among them.
proof fn lemma_renamed_input_count(old_g: Gate, new_g: Gate, from: Seq<char>, to: Seq<char>)
    requires
        gate_renamed(old_g, new_g, from, to),
        strictly_sorted(text_views(old_g.inputs@)),
        !text_views(old_g.inputs@).contains(to),
    ensures
        new_g.inputs@.len() == old_g.inputs@.len(),
{
    let o = text_views(old_g.inputs@);
    let nw = text_views(new_g.inputs@);
    lemma_strictly_sorted_distinct(o);
    lemma_strictly_sorted_distinct(nw);
    lemma_replaced_distinct(o, from, to);
    replaced(o, from, to).unique_seq_to_set();
    nw.unique_seq_to_set();
}

/// The probabilities of the basic events, as a multiset.
pub open spec fn probabilities_bag(events: Seq<(Seq<char>, BasicEvent)>) -> Multiset<u64>
    decreases events.len(),
{
    if events.len() == 0 {
        Multiset::empty()
    } else {
        probabilities_bag(events.drop_last()).insert(events.last().1.probability)
    }
}

/// Taking one entry out takes its probability out of the multiset.
proof fn lemma_bag_remove(s: Seq<(Seq<char>, BasicEvent)>, j: int)
    requires
        0 <= j < s.len(),
    ensures
        probabilities_bag(s) == probabilities_bag(s.remove(j)).insert(s[j].1.probability),
    decreases s.len(),
{
    if j == s.len() - 1 {
        assert(s.remove(j) =~= s.drop_last());
    } else {
        let d = s.drop_last();
        lemma_bag_remove(d, j);
        assert(d.remove(j) =~= s.remove(j).drop_last());
        assert(s.remove(j).last() == s.last());
        assert(s.remove(j).len() > 0);
        assert(probabilities_bag(s.remove(j)) == probabilities_bag(s.remove(j).drop_last()).insert(
            s.last().1.probability,
        ));
        assert(probabilities_bag(s) =~= probabilities_bag(s.remove(j)).insert(s[j].1.probability));
    }
}

/// Entry lists with distinct names and the same entries have the same
/// probabilities.
proof fn lemma_bag_same_entries(a: Seq<(Seq<char>, BasicEvent)>, b: Seq<(Seq<char>, BasicEvent)>)
    requires
        entry_keys(a).no_duplicates(),
        entry_keys(b).no_duplicates(),
        forall|k: Seq<char>, v: BasicEvent| #[trigger] has_entry(a, k, v) <==> has_entry(b, k, v),
    ensures
        probabilities_bag(a) == probabilities_bag(b),
    decreases a.len(),
{
    if a.len() == 0 {
        if b.len() > 0 {
            assert(b[0] == (b[0].0, b[0].1));
            assert(has_entry(b, b[0].0, b[0].1));
            assert(has_entry(a, b[0].0, b[0].1));
        }
    } else {
        let e = a.last();
        assert(has_entry(a, e.0, e.1)) by {
            assert(a[a.len() - 1] == e);
        }
        let j = choose|j: int| 0 <= j < b.len() && #[trigger] b[j] == (e.0, e.1);
        let a2 = a.drop_last();
        let b2 = b.remove(j);
        assert(entry_keys(a2) =~= entry_keys(a).drop_last());
        assert(entry_keys(b2) =~= entry_keys(b).remove(j));
        assert forall|x: int, y: int| 0 <= x < entry_keys(a2).len() && 0 <= y < entry_keys(a2).len() && x != y
            implies entry_keys(a2)[x] != entry_keys(a2)[y] by {
            assert(entry_keys(a)[x] != entry_keys(a)[y]);
        }
        assert forall|x: int, y: int| 0 <= x < entry_keys(b2).len() && 0 <= y < entry_keys(b2).len() && x != y
            implies entry_keys(b2)[x] != entry_keys(b2)[y] by {
            let x1 = if x < j { x } else { x + 1 };
            let y1 = if y < j { y } else { y + 1 };
            assert(entry_keys(b)[x1] != entry_keys(b)[y1]);
        }
        assert forall|k: Seq<char>, v: BasicEvent| #[trigger] has_entry(a2, k, v) <==> has_entry(b2, k, v) by {
            if has_entry(a2, k, v) {
                let x = choose|x: int| 0 <= x < a2.len() && #[trigger] a2[x] == (k, v);
                assert(a[x] == (k, v));
                assert(has_entry(a, k, v));
                assert(entry_keys(a)[x] != entry_keys(a)[a.len() - 1]);
                let y = choose|y: int| 0 <= y < b.len() && #[trigger] b[y] == (k, v);
                assert(y != j);
                if y < j {
                    assert(b2[y] == (k, v));
                } else {
                    assert(b2[y - 1] == (k, v));
                }
            }
            if has_entry(b2, k, v) {
                let y = choose|y: int| 0 <= y < b2.len() && #[trigger] b2[y] == (k, v);
                let y1 = if y < j { y } else { y + 1 };
                assert(b[y1] == (k, v));
                assert(entry_keys(b)[y1] != entry_keys(b)[j]);
                assert(entry_keys(b)[y1] == k && entry_keys(b)[j] == e.0);
                assert(has_entry(b, k, v));
                assert(b[j] == (e.0, e.1));
                assert(k != e.0);
                assert(has_entry(a, k, v));
                let x = choose|x: int| 0 <= x < a.len() && #[trigger] a[x] == (k, v);
                assert(a[a.len() - 1] == e);
                assert(x != a.len() - 1);
                assert(a2[x] == (k, v));
            }
        }
        lemma_bag_same_entries(a2, b2);
        lemma_bag_remove(b, j);
        assert(probabilities_bag(a) == probabilities_bag(a2).insert(e.1.probability));
    }
}

/// Renaming one basic event to a name no event has keeps the
/// probabilities, when the names are distinct before and after.
proof fn lemma_rename_keeps_bag(
    before: Seq<(Seq<char>, BasicEvent)>,
    after: Seq<(Seq<char>, BasicEvent)>,
    from: Seq<char>,
    to: Seq<char>,
    o: BasicEvent,
    nv: BasicEvent,
)
    requires
        entry_keys(before).no_duplicates(),
        entry_keys(after).no_duplicates(),
        !has_key(before, to),
        has_entry(before, from, o),
        nv.probability == o.probability,
        forall|k: Seq<char>, v: BasicEvent|
            #[trigger] has_entry(after, k, v) <==> ((k == to && v == nv) || (k != to && k != from
                && has_entry(before, k, v))),
    ensures
        probabilities_bag(after) == probabilities_bag(before),
{
    let i = choose|i: int| 0 <= i < before.len() && #[trigger] before[i] == (from, o);
    let c = before.update(i, (to, nv));
    lemma_bag_remove(before, i);
    lemma_bag_remove(c, i);
    assert(c.remove(i) =~= before.remove(i));
    assert forall|x: int, y: int| 0 <= x < entry_keys(c).len() && 0 <= y < entry_keys(c).len() && x != y
        implies entry_keys(c)[x] != entry_keys(c)[y] by {
        if x == i {
            assert(before[y].0 != to);
        } else if y == i {
            assert(before[x].0 != to);
        } else {
            assert(entry_keys(before)[x] != entry_keys(before)[y]);
        }
    }
    assert forall|k: Seq<char>, v: BasicEvent| #[trigger] has_entry(c, k, v) <==> has_entry(after, k, v) by {
        if has_entry(c, k, v) {
            let x = choose|x: int| 0 <= x < c.len() && #[trigger] c[x] == (k, v);
            if x != i {
                assert(before[x] == (k, v));
                assert(has_entry(before, k, v));
                assert(entry_keys(before)[x] != entry_keys(before)[i]);
                assert(k != to);
            }
        }
        if has_entry(after, k, v) {
            if k == to && v == nv {
                assert(c[i] == (k, v));
            } else {
                let x = choose|x: int| 0 <= x < before.len() && #[trigger] before[x] == (k, v);
                assert(x != i);
                assert(c[x] == (k, v));
            }
        }
    }
    lemma_bag_same_entries(c, after);
}

/// One round in one tree keeps the tree's frame, sorted and defined inputs
/// and names that match keys; with none of the names still to be shared in
/// the tree, it keeps the number of basic events too.
proof fn lemma_step_keeps_tree(before: FaultTree, after: FaultTree, pick: Option<Seq<char>>, k: nat, n: nat)
    requires
        promotion_step(before, after, pick, k),
        inputs_sorted(before),
        names_match_keys(before),
        inputs_defined(before),
    ensures
        same_frame(before, after),
        inputs_sorted(after),
        names_match_keys(after),
        inputs_defined(after),
        k < n && shared_names_free(before, k, n) ==> after.basic_events@.len() == before.basic_events@.len()
            && shared_names_free(after, k + 1, n),
        k < n && shared_names_free(before, k, n) && gate_names_free(before, n) ==> forall|p: int|
            0 <= p < after.gates@.len() ==> (#[trigger] after.gates@[p]).1.inputs@.len()
                == before.gates@[p].1.inputs@.len(),
        strictly_sorted(entry_keys(before.basic_events@)) ==> strictly_sorted(
            entry_keys(after.basic_events@),
        ),
        k < n && shared_names_free(before, k, n) && strictly_sorted(entry_keys(before.basic_events@))
            ==> probabilities_bag(after.basic_events@) == probabilities_bag(before.basic_events@),
{
    match pick {
        Some(x) => {
            let to = shared_event_name(k);
            if x != to {
                let (o, nv) = choose|o: BasicEvent, nv: BasicEvent|
                    #![trigger has_entry(before.basic_events@, x, o), has_entry(after.basic_events@, to, nv)]
                    {
                        &&& has_entry(before.basic_events@, x, o)
                        &&& has_entry(after.basic_events@, to, nv)
                        &&& nv.name@ == to
                        &&& nv.probability == o.probability
                        &&& forall|q: Seq<char>, v: BasicEvent|
                            #[trigger] has_entry(after.basic_events@, q, v) <==> ((q == to && v == nv) || (q
                                != to && q != x && has_entry(before.basic_events@, q, v)))
                    };
                law_rename_keeps_inputs_defined(before, after, x, to);
                assert forall|i: int| 0 <= i < after.basic_events@.len() implies (
                #[trigger] after.basic_events@[i]).1.name@ == after.basic_events@[i].0 by {
                    let (q, v) = after.basic_events@[i];
                    assert(has_entry(after.basic_events@, q, v));
                    if q != to {
                        assert(has_entry(before.basic_events@, q, v));
                        let m = choose|m: int| 0 <= m < before.basic_events@.len() && #[trigger] before.basic_events@[m] == (q, v);
                        assert(before.basic_events@[m].1.name@ == before.basic_events@[m].0);
                    }
                }
                assert forall|p: int| 0 <= p < after.gates@.len() implies strictly_sorted(
                    text_views((#[trigger] after.gates@[p]).1.inputs@),
                ) by {
                    assert(gate_renamed(before.gates@[p].1, after.gates@[p].1, x, to));
                }
                if k < n && shared_names_free(before, k, n) && strictly_sorted(
                    entry_keys(before.basic_events@),
                ) {
                    lemma_strictly_sorted_distinct(entry_keys(before.basic_events@));
                    lemma_strictly_sorted_distinct(entry_keys(after.basic_events@));
                    lemma_rename_keeps_bag(before.basic_events@, after.basic_events@, x, to, o, nv);
                }
                if k < n && shared_names_free(before, k, n) && gate_names_free(before, n) {
                    assert forall|p: int| 0 <= p < after.gates@.len() implies (
                    #[trigger] after.gates@[p]).1.inputs@.len() == before.gates@[p].1.inputs@.len() by {
                        let g = before.gates@[p].1;
                        assert(gate_renamed(g, after.gates@[p].1, x, to));
                        assert(!has_key(before.basic_events@, to));
                        assert(!has_key(before.gates@, to));
                        if text_views(g.inputs@).contains(to) {
                            let q = choose|q: int| 0 <= q < text_views(g.inputs@).len() && text_views(g.inputs@)[q] == to;
                            assert(g.inputs@[q]@ == to);
                            assert(before.gates@[p].1.inputs@[q]@ == to);
                        }
                        lemma_renamed_input_count(g, after.gates@[p].1, x, to);
                    }
                }
                if k < n && shared_names_free(before, k, n) {
                    assert(!has_key(before.basic_events@, to));
                    assert forall|j: nat| k + 1 <= j < n implies !has_key(
                        after.basic_events@,
                        #[trigger] shared_event_name(j),
                    ) by {
                        lemma_key_after_rename(before.basic_events@, after.basic_events@, x, to, nv, shared_event_name(j));
                        lemma_shared_names_distinct(j, k);
                        assert(!has_key(before.basic_events@, shared_event_name(j)));
                    }
                }
            } else {
                if k < n && shared_names_free(before, k, n) {
                    assert(!has_key(before.basic_events@, shared_event_name(k)));
                }
            }
        },
        None => {},
    }
}

/// The rounds of a promotion that start from trees with sorted and defined
/// inputs and names that match their keys keep all of that, and keep each
/// tree's name, top gate, house events and gates (names and types).  When
/// no tree had a basic event under a shared name, each tree keeps its
/// number of basic events and, with its names in order (as a `NameMap`
/// keeps them), the multiset of their probabilities; when no gate had such
/// a name either, each gate keeps its number of inputs.
pub proof fn law_promotion_keeps_trees(
    stages: Seq<Seq<FaultTree>>,
    picks: Seq<Seq<Option<Seq<char>>>>,
    n: nat,
    u: int,
)
    requires
        promoted_in_rounds(stages, picks),
        picks.len() <= n,
        0 <= u < stages[0].len(),
        inputs_sorted(stages[0][u]),
        names_match_keys(stages[0][u]),
        inputs_defined(stages[0][u]),
    ensures
        u < stages[picks.len() as int].len(),
        same_frame(stages[0][u], stages[picks.len() as int][u]),
        inputs_sorted(stages[picks.len() as int][u]),
        names_match_keys(stages[picks.len() as int][u]),
        inputs_defined(stages[picks.len() as int][u]),
        shared_names_free(stages[0][u], 0, n) ==> stages[picks.len() as int][u].basic_events@.len()
            == stages[0][u].basic_events@.len() && shared_names_free(stages[picks.len() as int][u], picks.len(), n),
        shared_names_free(stages[0][u], 0, n) && gate_names_free(stages[0][u], n) ==> forall|p: int|
            0 <= p < stages[0][u].gates@.len() ==> (#[trigger] stages[picks.len() as int][u].gates@[p]).1.inputs@.len()
                == stages[0][u].gates@[p].1.inputs@.len(),
        strictly_sorted(entry_keys(stages[0][u].basic_events@)) ==> strictly_sorted(
            entry_keys(stages[picks.len() as int][u].basic_events@),
        ),
        shared_names_free(stages[0][u], 0, n) && strictly_sorted(entry_keys(stages[0][u].basic_events@))
            ==> probabilities_bag(stages[picks.len() as int][u].basic_events@) == probabilities_bag(
            stages[0][u].basic_events@,
        ),
    decreases picks.len(),
{
    if picks.len() > 0 {
        let k = picks.len() - 1;
        let s2 = stages.drop_last();
        let p2 = picks.drop_last();
        assert forall|j: int| 0 <= j < p2.len() implies round_fits(s2[j], s2[j + 1], #[trigger] p2[j], j as nat) by {
            assert(p2[j] == picks[j]);
            assert(round_fits(stages[j], stages[j + 1], picks[j], j as nat));
        }
        assert(promoted_in_rounds(s2, p2));
        law_promotion_keeps_trees(s2, p2, n, u);
        assert(s2[k] == stages[k]);
        assert(round_fits(stages[k], stages[k + 1], picks[k], k as nat));
        let before = stages[k][u];
        let after = stages[k + 1][u];
        assert(promotion_step(before, after, picks[k][u], k as nat));
        lemma_step_keeps_tree(before, after, picks[k][u], k as nat, n);
        let first = stages[0][u];
        assert(s2[0] == stages[0]);
        assert forall|p: int| 0 <= p < first.gates@.len() implies {
            &&& (#[trigger] after.gates@[p]).0 == first.gates@[p].0
            &&& after.gates@[p].1.name == first.gates@[p].1.name
            &&& after.gates@[p].1.gate_type == first.gates@[p].1.gate_type
        } by {
            assert(before.gates@[p].0 == first.gates@[p].0);
        }
        if shared_names_free(first, 0, n) && gate_names_free(first, n) {
            assert forall|j: nat| j < n implies !has_key(before.gates@, #[trigger] shared_event_name(j)) by {
                if has_key(before.gates@, shared_event_name(j)) {
                    let i = choose|i: int| 0 <= i < before.gates@.len() && (#[trigger] before.gates@[i]).0 == shared_event_name(j);
                    assert(first.gates@[i].0 == before.gates@[i].0);
                }
            }
            assert forall|p: int| 0 <= p < first.gates@.len() implies (#[trigger] after.gates@[p]).1.inputs@.len()
                == first.gates@[p].1.inputs@.len() by {
                assert(before.gates@[p].1.inputs@.len() == first.gates@[p].1.inputs@.len());
            }
        }
    }
}

/// The smallest number of basic events of a tree (0 for no trees).
pub open spec fn min_basic_events(trees: Seq<FaultTree>) -> nat
    decreases trees.len(),
{
    if trees.len() == 0 {
        0
    } else if trees.len() == 1 {
        trees[0].basic_events@.len()
    } else {
        let m = min_basic_events(trees.drop_last());
        let l = trees.last().basic_events@.len();
        if l < m {
            l
        } else {
            m
        }
    }
}

proof fn lemma_min_basic_events(trees: Seq<FaultTree>)
    ensures
        forall|u: int|
            0 <= u < trees.len() ==> min_basic_events(trees) <= (#[trigger] trees[u]).basic_events@.len(),
    decreases trees.len(),
{
    if trees.len() > 1 {
        lemma_min_basic_events(trees.drop_last());
        assert forall|u: int|
            0 <= u < trees.len() implies min_basic_events(trees) <= (#[trigger] trees[u]).basic_events@.len() by {
            if u < trees.len() - 1 {
                assert(trees.drop_last()[u] == trees[u]);
            }
        }
    }
}

/// Renaming inputs keeps the names of the gates.
proof fn lemma_keys_after_rename(
    old_m: Seq<(Seq<char>, Gate)>,
    new_m: Seq<(Seq<char>, Gate)>,
    from: Seq<char>,
    to: Seq<char>,
)
    requires
        gates_renamed(old_m, new_m, from, to),
    ensures
        entry_keys(new_m) == entry_keys(old_m),
{
    assert forall|p: int| 0 <= p < new_m.len() implies entry_keys(new_m)[p] == entry_keys(old_m)[p] by {
        assert(new_m[p].0 == old_m[p].0);
    }
    assert(entry_keys(new_m) =~= entry_keys(old_m));
}

// ─── Manifest ────────────────────────────────────────────────────────────────

/// The map `m` of strings holds `text` under `k`.
pub open spec fn holds(m: Seq<(Seq<char>, String)>, k: Seq<char>, text: Seq<char>) -> bool {
    exists|i: int| 0 <= i < m.len() && (#[trigger] m[i]).0 == k && m[i].1@ == text
}

/// `m` is the manifest row of one model: exactly the keys `path`, `seed`,
/// `node_count` and `edge_count`, with the path and the decimal numbers.
pub open spec fn is_manifest_row(
    m: Seq<(Seq<char>, String)>,
    path: Seq<char>,
    seed: u64,
    nodes: usize,
    edges: usize,
) -> bool {
    &&& m.len() == 4
    &&& holds(m, "path"@, path)
    &&& holds(m, "seed"@, decimal(seed as nat))
    &&& holds(m, "node_count"@, decimal(nodes as nat))
    &&& holds(m, "edge_count"@, decimal(edges as nat))
}

/// One manifest row per path: the path, and the seed, node count and edge
/// count at the same position.
pub fn manifest_rows(
    paths: &Vec<String>,
    seeds: &Vec<u64>,
    node_counts: &Vec<usize>,
    edge_counts: &Vec<usize>,
) -> (r: Vec<NameMap<String>>)
    requires
        seeds@.len() >= paths@.len(),
        node_counts@.len() >= paths@.len(),
        edge_counts@.len() >= paths@.len(),
    ensures
        r@.len() == paths@.len(),
        forall|i: int|
            0 <= i < r@.len() ==> is_manifest_row(
                (#[trigger] r@[i])@,
                paths@[i]@,
                seeds@[i],
                node_counts@[i],
                edge_counts@[i],
            ),
{
    let mut rows: Vec<NameMap<String>> = Vec::new();
    let mut i: usize = 0;
    while i < paths.len()
        invariant
            i <= paths@.len(),
            seeds@.len() >= paths@.len(),
            node_counts@.len() >= paths@.len(),
            edge_counts@.len() >= paths@.len(),
            rows@.len() == i,
            forall|j: int|
                0 <= j < i ==> is_manifest_row(
                    (#[trigger] rows@[j])@,
                    paths@[j]@,
                    seeds@[j],
                    node_counts@[j],
                    edge_counts@[j],
                ),
        decreases paths@.len() - i,
    {
        rows.push(manifest_row_of(&paths[i], seeds[i], node_counts[i], edge_counts[i]));
        i = i + 1;
    }
    rows
}

/// A map that holds a pair under `k` holds `k`.
proof fn lemma_key_of_entry(m: Seq<(Seq<char>, String)>, k: Seq<char>, v: String)
    requires
        has_entry(m, k, v),
    ensures
        has_key(m, k),
        holds(m, k, v@),
{
    let i = choose|i: int| 0 <= i < m.len() && #[trigger] m[i] == (k, v);
    assert(m[i].0 == k);
}

/// A map with a key `k` has an entry under `k`.
proof fn lemma_entry_of_key(m: Seq<(Seq<char>, String)>, k: Seq<char>)
    requires
        has_key(m, k),
    ensures
        exists|v: String| has_entry(m, k, v),
{
    let i = choose|i: int| 0 <= i < m.len() && (#[trigger] m[i]).0 == k;
    assert(has_entry(m, k, m[i].1));
}

/// The manifest row of one model.
fn manifest_row_of(path: &String, seed: u64, nodes: usize, edges: usize) -> (row: NameMap<String>)
    ensures
        is_manifest_row(row@, path@, seed, nodes, edges),
{
    proof {
        reveal_strlit("path");
        reveal_strlit("seed");
        reveal_strlit("node_count");
        reveal_strlit("edge_count");
    }
    let mut row: NameMap<String> = NameMap::new();
    let v1 = path.clone();
    let ghost g1 = v1;
    row.insert(owned("path"), v1);
    let ghost m1 = row@;
    let v2 = crate::text::decimal_string(seed);
    let ghost g2 = v2;
    proof {
        if has_key(m1, "seed"@) {
            lemma_entry_of_key(m1, "seed"@);
            assert("seed"@[0] != "path"@[0]);
        }
    }
    row.insert(owned("seed"), v2);
    let ghost m2 = row@;
    let v3 = crate::text::decimal_string(nodes as u64);
    let ghost g3 = v3;
    proof {
        if has_key(m2, "node_count"@) {
            lemma_entry_of_key(m2, "node_count"@);
            let v = choose|v: String| has_entry(m2, "node_count"@, v);
            assert("node_count"@[0] != "seed"@[0]);
            assert(has_entry(m1, "node_count"@, v));
            assert("node_count"@[0] != "path"@[0]);
        }
    }
    row.insert(owned("node_count"), v3);
    let ghost m3 = row@;
    let v4 = crate::text::decimal_string(edges as u64);
    let ghost g4 = v4;
    proof {
        if has_key(m3, "edge_count"@) {
            lemma_entry_of_key(m3, "edge_count"@);
            let v = choose|v: String| has_entry(m3, "edge_count"@, v);
            assert("edge_count"@[0] != "node_count"@[0]);
            assert("edge_count"@[0] != "seed"@[0]);
            assert(has_entry(m2, "edge_count"@, v));
            assert(has_entry(m1, "edge_count"@, v));
            assert("edge_count"@[0] != "path"@[0]);
        }
    }
    row.insert(owned("edge_count"), v4);
    proof {
        let m4 = row@;
        assert("path"@[0] != "seed"@[0]);
        assert("path"@[0] != "node_count"@[0]);
        assert("path"@[0] != "edge_count"@[0]);
        assert("seed"@[0] != "node_count"@[0]);
        assert("seed"@[0] != "edge_count"@[0]);
        assert("node_count"@[0] != "edge_count"@[0]);
        assert(has_entry(m1, "path"@, g1));
        assert(has_entry(m2, "path"@, g1));
        assert(has_entry(m3, "path"@, g1));
        assert(has_entry(m4, "path"@, g1));
        lemma_key_of_entry(m4, "path"@, g1);
        assert(has_entry(m2, "seed"@, g2));
        assert(has_entry(m3, "seed"@, g2));
        assert(has_entry(m4, "seed"@, g2));
        lemma_key_of_entry(m4, "seed"@, g2);
        assert(has_entry(m3, "node_count"@, g3));
        assert(has_entry(m4, "node_count"@, g3));
        lemma_key_of_entry(m4, "node_count"@, g3);
        assert(has_entry(m4, "edge_count"@, g4));
        lemma_key_of_entry(m4, "edge_count"@, g4);
    }
    row
}

} // verus!
