//! Event trees: an initiating event followed by functional events (safety
//! systems), each of which succeeds or fails, and one accident sequence for
//! every combination of outcomes.
//!
//! With `N` functional events the mapper builds `2^N` sequences: sequence
//! `i` reads `i` as an `N`-bit number whose bit `b` tells whether functional
//! event `b` succeeded.  Its id is `SEQ-` followed by the binary digits of `i`,
//! most significant first, padded with zeros to `N` digits.

use vstd::prelude::*;
use vstd::arithmetic::power2::*;
use vstd::bits::*;
use vstd::string::*;

use crate::names::{insert_name, strictly_sorted, text_views};
use crate::text::{decimal, joined, owned, push_decimal};

verus! {

// ─── Model types ─────────────────────────────────────────────────────────────

/// The event that starts the accident sequence; `top_gate_ref` names the top
/// gate of the fault tree that quantifies it.
#[derive(Debug, Clone, PartialEq, Eq)]
pub struct InitiatingEvent {
    pub name: String,
    pub top_gate_ref: String,
}

/// A mitigation system evaluated after the initiating event, backed by the
/// fault tree named `fault_tree_ref`.
#[derive(Debug, Clone, PartialEq, Eq)]
pub struct FunctionalEvent {
    pub name: String,
    pub fault_tree_ref: String,
}

/// One accident-progression path: `outcomes[i]` is `true` when functional
/// event `i` succeeded.
#[derive(Debug, Clone, PartialEq, Eq)]
pub struct Sequence {
    pub id: String,
    pub outcomes: Vec<bool>,
}

/// The ordered functional-event header of the tree.
#[derive(Debug, Clone, PartialEq, Eq)]
pub struct BranchSet {
    pub name: String,
    pub functional_event_refs: Vec<String>,
}

/// A complete event tree.
#[derive(Debug, Clone, PartialEq, Eq)]
pub struct EventTree {
    pub name: String,
    pub initiating_event: InitiatingEvent,
    pub functional_events: Vec<FunctionalEvent>,
    pub branch_set: BranchSet,
    pub sequences: Vec<Sequence>,
}

/// Errors that can arise when building an [`EventTree`].
#[derive(Debug, Clone, PartialEq, Eq)]
pub enum EventTreeError {
    /// The number of functional events was zero.
    InvalidFunctionalEventCount(usize),
}

impl EventTreeError {
    /// The human-readable description of the error.
    pub fn message(&self) -> (s: String)
        ensures
            match self {
                EventTreeError::InvalidFunctionalEventCount(n) => s@
                    == "number_of_functional_events must be >= 1, got "@ + decimal(*n as nat),
            },
    {
        match self {
            EventTreeError::InvalidFunctionalEventCount(n) => {
                let mut s = owned("number_of_functional_events must be >= 1, got ");
                push_decimal(&mut s, *n as u64);
                s
            },
        }
    }
}

// ─── Specification ───────────────────────────────────────────────────────────

/// The outcomes of sequence `i` among `n` functional events: element `b` is
/// bit `b` of `i` (`true` = success).
pub open spec fn outcome_bits(i: nat, n: nat) -> Seq<bool>
    decreases n,
{
    if n == 0 {
        Seq::empty()
    } else {
        seq![i % 2 == 1] + outcome_bits(i / 2, (n - 1) as nat)
    }
}

/// The binary digits of a bit list whose element `b` is bit `b`, most
/// significant digit first.
pub open spec fn bits_text(bits: Seq<bool>) -> Seq<char> {
    Seq::new(bits.len(), |k: int| if bits[bits.len() - 1 - k] { '1' } else { '0' })
}

/// The id of sequence `i` among `n` functional events: `SEQ-` and the binary
/// representation of `i` padded with zeros to `n` digits.
pub open spec fn sequence_id(i: nat, n: nat) -> Seq<char> {
    seq!['S', 'E', 'Q', '-'] + bits_text(outcome_bits(i, n))
}

/// The name of functional event `j` (zero-based): `FE-` and `j + 1`.
pub open spec fn functional_event_name(j: nat) -> Seq<char> {
    seq!['F', 'E', '-'] + decimal(j + 1)
}

/// `et` is the event tree that [`EventTreeMapper::build`] makes for these
/// arguments.
pub open spec fn is_event_tree_for(
    et: EventTree,
    model: Seq<char>,
    n: nat,
    fault_tree: Seq<char>,
    top_gate: Seq<char>,
) -> bool {
    &&& et.name@ == model + "-event-tree"@
    &&& et.initiating_event.name@ == model + "-initiator"@
    &&& et.initiating_event.top_gate_ref@ == top_gate
    &&& et.functional_events@.len() == n
    &&& forall|j: int|
        0 <= j < n ==> {
            &&& (#[trigger] et.functional_events@[j]).name@ == functional_event_name(j as nat)
            &&& et.functional_events@[j].fault_tree_ref@ == fault_tree
        }
    &&& et.branch_set.name@ == model + "-branch-set"@
    &&& et.branch_set.functional_event_refs@.len() == n
    &&& forall|j: int|
        0 <= j < n ==> (#[trigger] et.branch_set.functional_event_refs@[j])@
            == functional_event_name(j as nat)
    &&& et.sequences@.len() == pow2(n)
    &&& forall|i: int|
        0 <= i < pow2(n) ==> {
            &&& (#[trigger] et.sequences@[i]).outcomes@ == outcome_bits(i as nat, n)
            &&& et.sequences@[i].id@ == sequence_id(i as nat, n)
        }
}

// ─── Laws ────────────────────────────────────────────────────────────────────

/// The number whose bit `b` is element `b` of `bits`.
pub open spec fn bits_value(bits: Seq<bool>) -> nat
    decreases bits.len(),
{
    if bits.len() == 0 {
        0
    } else {
        (if bits[0] {
            1nat
        } else {
            0nat
        }) + 2 * bits_value(bits.drop_first())
    }
}

proof fn lemma_bits_value_round_trip(bits: Seq<bool>)
    ensures
        bits_value(bits) < pow2(bits.len()),
        outcome_bits(bits_value(bits), bits.len()) == bits,
    decreases bits.len(),
{
    lemma2_to64();
    if bits.len() > 0 {
        let rest = bits.drop_first();
        lemma_bits_value_round_trip(rest);
        lemma_pow2_unfold(bits.len());
        let v = bits_value(bits);
        assert(v % 2 == (if bits[0] { 1nat } else { 0nat }));
        assert(v / 2 == bits_value(rest));
        assert(outcome_bits(v, bits.len()) =~= seq![v % 2 == 1] + outcome_bits(
            bits_value(rest),
            rest.len(),
        ));
        assert(outcome_bits(v, bits.len()) =~= bits);
    }
}

proof fn lemma_outcome_bits_value(i: nat, n: nat)
    requires
        i < pow2(n),
    ensures
        bits_value(outcome_bits(i, n)) == i,
        outcome_bits(i, n).len() == n,
    decreases n,
{
    lemma2_to64();
    if n == 0 {
    } else {
        lemma_pow2_unfold(n);
        lemma_outcome_bits_value(i / 2, (n - 1) as nat);
        let bits = outcome_bits(i, n);
        assert(bits.drop_first() =~= outcome_bits(i / 2, (n - 1) as nat));
    }
}

proof fn lemma_outcome_bits_len(i: nat, n: nat)
    ensures
        outcome_bits(i, n).len() == n,
    decreases n,
{
    if n > 0 {
        lemma_outcome_bits_len(i / 2, (n - 1) as nat);
    }
}

/// Every sequence of an event tree built for `n` functional events has one
/// outcome per functional event.
pub proof fn lemma_one_outcome_per_functional_event(
    et: EventTree,
    model: Seq<char>,
    n: nat,
    fault_tree: Seq<char>,
    top_gate: Seq<char>,
)
    requires
        is_event_tree_for(et, model, n, fault_tree, top_gate),
    ensures
        forall|s: int|
            0 <= s < et.sequences@.len() ==> (#[trigger] et.sequences@[s]).outcomes@.len()
                == et.functional_events@.len(),
{
    assert forall|s: int| 0 <= s < et.sequences@.len() implies (#[trigger] et.sequences@[s]).outcomes@.len()
        == et.functional_events@.len() by {
        lemma_outcome_bits_len(s as nat, n);
    }
}

proof fn lemma_bits_text_injective(a: Seq<bool>, b: Seq<bool>)
    requires
        a.len() == b.len(),
        bits_text(a) == bits_text(b),
    ensures
        a == b,
{
    assert forall|k: int| 0 <= k < a.len() implies a[k] == b[k] by {
        let m = a.len() - 1 - k;
        assert(bits_text(a)[m] == bits_text(b)[m]);
        assert(bits_text(a)[m] == (if a[k] { '1' } else { '0' }));
        assert(bits_text(b)[m] == (if b[k] { '1' } else { '0' }));
    }
    assert(a =~= b);
}

/// Each combination of outcomes of the `n` functional events occurs in
/// exactly one sequence of an event tree built for `n` functional events, and
/// no two sequences share an id.
pub proof fn law_each_outcome_combination_once(
    et: EventTree,
    model: Seq<char>,
    n: nat,
    fault_tree: Seq<char>,
    top_gate: Seq<char>,
    outcomes: Seq<bool>,
)
    requires
        is_event_tree_for(et, model, n, fault_tree, top_gate),
        outcomes.len() == n,
    ensures
        exists|i: int|
            0 <= i < et.sequences@.len() && (#[trigger] et.sequences@[i]).outcomes@ == outcomes,
        forall|i: int, j: int|
            0 <= i < j < et.sequences@.len() ==> (#[trigger] et.sequences@[i]).outcomes@
                != (#[trigger] et.sequences@[j]).outcomes@,
        forall|i: int, j: int|
            0 <= i < j < et.sequences@.len() ==> (#[trigger] et.sequences@[i]).id@
                != (#[trigger] et.sequences@[j]).id@,
{
    lemma_bits_value_round_trip(outcomes);
    let v = bits_value(outcomes);
    assert(et.sequences@[v as int].outcomes@ == outcomes);
    assert forall|i: int, j: int| 0 <= i < j < et.sequences@.len() implies (
    #[trigger] et.sequences@[i]).outcomes@ != (#[trigger] et.sequences@[j]).outcomes@ by {
        lemma_outcome_bits_value(i as nat, n);
        lemma_outcome_bits_value(j as nat, n);
    }
    assert forall|i: int, j: int| 0 <= i < j < et.sequences@.len() implies (
    #[trigger] et.sequences@[i]).id@ != (#[trigger] et.sequences@[j]).id@ by {
        lemma_outcome_bits_value(i as nat, n);
        lemma_outcome_bits_value(j as nat, n);
        let bi = outcome_bits(i as nat, n);
        let bj = outcome_bits(j as nat, n);
        if sequence_id(i as nat, n) == sequence_id(j as nat, n) {
            let p = seq!['S', 'E', 'Q', '-'];
            assert(bits_text(bi) =~= sequence_id(i as nat, n).subrange(4, 4 + n as int));
            assert(bits_text(bj) =~= sequence_id(j as nat, n).subrange(4, 4 + n as int));
            lemma_bits_text_injective(bi, bj);
        }
    }
}

// ─── Mapper ──────────────────────────────────────────────────────────────────

fn sequence_outcomes(i: usize, n: usize) -> (r: Vec<bool>)
    ensures
        r@ == outcome_bits(i as nat, n as nat),
{
    let mut out: Vec<bool> = Vec::new();
    let mut v: usize = i;
    let mut b: usize = 0;
    while b < n
        invariant
            b <= n,
            out@ + outcome_bits(v as nat, (n - b) as nat) == outcome_bits(i as nat, n as nat),
        decreases n - b,
    {
        let ghost before = out@;
        let ghost rest = outcome_bits((v / 2) as nat, (n - b - 1) as nat);
        assert(outcome_bits(v as nat, (n - b) as nat) == seq![v % 2 == 1] + rest);
        out.push(v % 2 == 1);
        assert(out@ + rest =~= before + (seq![v % 2 == 1] + rest));
        v = v / 2;
        b = b + 1;
    }
    assert(out@ =~= out@ + outcome_bits(v as nat, 0));
    out
}

fn sequence_id_text(outcomes: &Vec<bool>) -> (r: String)
    ensures
        r@ == seq!['S', 'E', 'Q', '-'] + bits_text(outcomes@),
{
    proof {
        reveal_strlit("SEQ-");
        reveal_strlit("0");
        reveal_strlit("1");
    }
    let mut s = owned("SEQ-");
    let n = outcomes.len();
    let mut k: usize = 0;
    while k < n
        invariant
            n == outcomes@.len(),
            k <= n,
            s@ == seq!['S', 'E', 'Q', '-'] + bits_text(outcomes@).take(k as int),
        decreases n - k,
    {
        let ghost before = s@;
        proof {
            reveal_strlit("0");
            reveal_strlit("1");
        }
        if outcomes[n - 1 - k] {
            s.append("1");
            assert(s@ =~= before.push('1'));
        } else {
            s.append("0");
            assert(s@ =~= before.push('0'));
        }
        assert(bits_text(outcomes@).take(k + 1) =~= bits_text(outcomes@).take(k as int).push(
            bits_text(outcomes@)[k as int],
        ));
        assert(s@ =~= seq!['S', 'E', 'Q', '-'] + bits_text(outcomes@).take(k + 1));
        k = k + 1;
    }
    assert(bits_text(outcomes@).take(n as int) =~= bits_text(outcomes@));
    s
}

/// Builds [`EventTree`]s from configuration values.
pub struct EventTreeMapper;

impl EventTreeMapper {
    /// Builds the event tree of a model with `number_of_functional_events`
    /// functional events, all backed by the fault tree `fault_tree_name`, and
    /// an initiating event quantified by gate `top_gate_ref`.
    ///
    /// Fails when `number_of_functional_events` is zero.
    pub fn build(
        model_name: &str,
        number_of_functional_events: usize,
        fault_tree_name: &str,
        top_gate_ref: &str,
    ) -> (r: Result<EventTree, EventTreeError>)
        requires
            // `1 << number_of_functional_events` must not overflow.
            number_of_functional_events < usize::BITS,
        ensures
            number_of_functional_events == 0 ==> r == Err::<EventTree, EventTreeError>(
                EventTreeError::InvalidFunctionalEventCount(0),
            ),
            number_of_functional_events > 0 ==> (r matches Ok(et) && is_event_tree_for(
                et,
                model_name@,
                number_of_functional_events as nat,
                fault_tree_name@,
                top_gate_ref@,
            )),
    {
        let n = number_of_functional_events;
        if n == 0 {
            return Err(EventTreeError::InvalidFunctionalEventCount(0));
        }
        proof {
            reveal_strlit("FE-");
        }
        let mut functional_events: Vec<FunctionalEvent> = Vec::new();
        let mut refs: Vec<String> = Vec::new();
        let mut idx: usize = 0;
        while idx < n
            invariant
                idx <= n,
                functional_events@.len() == idx,
                refs@.len() == idx,
                forall|j: int|
                    0 <= j < idx ==> {
                        &&& (#[trigger] functional_events@[j]).name@ == functional_event_name(
                            j as nat,
                        )
                        &&& functional_events@[j].fault_tree_ref@ == fault_tree_name@
                    },
                forall|j: int| 0 <= j < idx ==> (#[trigger] refs@[j])@ == functional_event_name(j as nat),
            decreases n - idx,
        {
            proof {
                reveal_strlit("FE-");
            }
            let mut name = owned("FE-");
            push_decimal(&mut name, (idx + 1) as u64);
            assert(name@ =~= functional_event_name(idx as nat));
            let fe_ref = name.clone();
            functional_events.push(
                FunctionalEvent { name, fault_tree_ref: owned(fault_tree_name) },
            );
            refs.push(fe_ref);
            idx = idx + 1;
        }

        proof {
            lemma_usize_pow2_no_overflow(n as nat);
            lemma_usize_shl_is_mul(1, n);
        }
        let sequence_count = 1usize << n;
        let mut sequences: Vec<Sequence> = Vec::new();
        let mut i: usize = 0;
        while i < sequence_count
            invariant
                sequence_count == pow2(n as nat),
                i <= sequence_count,
                sequences@.len() == i,
                forall|k: int|
                    0 <= k < i ==> {
                        &&& (#[trigger] sequences@[k]).outcomes@ == outcome_bits(
                            k as nat,
                            n as nat,
                        )
                        &&& sequences@[k].id@ == sequence_id(k as nat, n as nat)
                    },
            decreases sequence_count - i,
        {
            let outcomes = sequence_outcomes(i, n);
            let id = sequence_id_text(&outcomes);
            sequences.push(Sequence { id, outcomes });
            i = i + 1;
        }

        let et = EventTree {
            name: joined(model_name, "-event-tree"),
            initiating_event: InitiatingEvent {
                name: joined(model_name, "-initiator"),
                top_gate_ref: owned(top_gate_ref),
            },
            branch_set: BranchSet {
                name: joined(model_name, "-branch-set"),
                functional_event_refs: refs,
            },
            functional_events,
            sequences,
        };
        assert(et.name@ == model_name@ + "-event-tree"@);
        assert(et.sequences@.len() == pow2(n as nat));
        assert(et.functional_events@.len() == n);
        Ok(et)
    }
}

impl EventTree {
    /// The distinct names of the fault trees that the functional events
    /// reference, in code-point order.
    pub fn referenced_fault_trees(&self) -> (r: Vec<String>)
        ensures
            strictly_sorted(text_views(r@)),
            forall|k: Seq<char>|
                text_views(r@).contains(k) <==> exists|j: int|
                    0 <= j < self.functional_events@.len()
                        && (#[trigger] self.functional_events@[j]).fault_tree_ref@ == k,
    {
        let mut r: Vec<String> = Vec::new();
        let mut j: usize = 0;
        while j < self.functional_events.len()
            invariant
                j <= self.functional_events@.len(),
                strictly_sorted(text_views(r@)),
                forall|k: Seq<char>|
                    text_views(r@).to_set().contains(k) <==> exists|q: int|
                        0 <= q < j && (#[trigger] self.functional_events@[q]).fault_tree_ref@ == k,
            decreases self.functional_events@.len() - j,
        {
            let ghost before = text_views(r@).to_set();
            insert_name(&mut r, self.functional_events[j].fault_tree_ref.clone());
            proof {
                let added = self.functional_events@[j as int].fault_tree_ref@;
                assert forall|k: Seq<char>|
                    text_views(r@).to_set().contains(k) <==> exists|q: int|
                        0 <= q < j + 1 && (#[trigger] self.functional_events@[q]).fault_tree_ref@
                            == k by {
                    if k == added {
                        assert(self.functional_events@[j as int].fault_tree_ref@ == k);
                    }
                    if exists|q: int|
                        0 <= q < j + 1 && (#[trigger] self.functional_events@[q]).fault_tree_ref@
                            == k {
                        let q = choose|q: int|
                            0 <= q < j + 1 && (#[trigger] self.functional_events@[q]).fault_tree_ref@
                                == k;
                        if q < j {
                            assert(before.contains(k));
                        }
                    }
                }
            }
            j = j + 1;
        }
        assert forall|k: Seq<char>| text_views(r@).contains(k) == text_views(r@).to_set().contains(k) by {}
        r
    }
}

} // verus!
