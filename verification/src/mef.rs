//! The Open-PSA MEF v2.0 layout of a fault tree and an event tree, and the
//! serializer that writes it.
//!
//! The layout is stated as the list of XML events it consists of
//! ([`model_items`]); [`XmlSerializer::serialize_model`] builds exactly
//! that list and renders it.  Gates, basic events and house events come in
//! code-point order of their names (the order of the fault tree's maps), so
//! the output is deterministic.

use vstd::prelude::*;

use crate::event_tree::{EventTree, FunctionalEvent, Sequence};
use crate::fault_tree::{BasicEvent, FaultTree, FaultTreeError, Gate, GateType, HouseEvent};
use crate::names::text_views;
use crate::text::{decimal, decimal_string, owned};
use crate::xml::{
    attributes_view, indent_from, indent_within, items, lemma_indent_concat, lemma_indent_flat,
    lemma_indent_one, lemma_within_concat, render_xml, rendered, XmlEvent, XmlItem, XmlTag,
};

verus! {

// ─── The layout, stated ──────────────────────────────────────────────────────

/// The attributes of a `define-gate` tag: its name and type, and `k` for a
/// K-of-N gate.
pub open spec fn gate_attributes(name: Seq<char>, t: GateType) -> Seq<(Seq<char>, Seq<char>)> {
    match t {
        GateType::And => seq![("name"@, name), ("type"@, "and"@)],
        GateType::Or => seq![("name"@, name), ("type"@, "or"@)],
        GateType::KofN(k) => seq![("name"@, name), ("type"@, "kofn"@), ("k"@, decimal(k as nat))],
    }
}

/// One `<input ref="…"/>` per input name.
pub open spec fn input_items(inputs: Seq<Seq<char>>) -> Seq<XmlItem> {
    inputs.map_values(|r: Seq<char>| XmlItem::Empty("input"@, seq![("ref"@, r)]))
}

/// The `define-gate` element of a gate.
pub open spec fn gate_items(g: Gate) -> Seq<XmlItem> {
    seq![XmlItem::Start("define-gate"@, gate_attributes(g.name@, g.gate_type))] + input_items(
        text_views(g.inputs@),
    ) + seq![XmlItem::End("define-gate"@)]
}

/// The `define-gate` elements of the gates, in map order.
pub open spec fn gates_items(gates: Seq<(Seq<char>, Gate)>) -> Seq<XmlItem>
    decreases gates.len(),
{
    if gates.len() == 0 {
        Seq::empty()
    } else {
        gates_items(gates.drop_last()) + gate_items(gates.last().1)
    }
}

/// The `define-basic-event` element of a basic event whose probability is
/// written as `probability`.
pub open spec fn basic_event_items(b: BasicEvent, probability: Seq<char>) -> Seq<XmlItem> {
    seq![
        XmlItem::Start("define-basic-event"@, seq![("name"@, b.name@)]),
        XmlItem::Empty("float"@, seq![("value"@, probability)]),
        XmlItem::End("define-basic-event"@),
    ]
}

/// The `define-basic-event` elements, in map order; the probability of the
/// event at position `p` is written as `probabilities[p]`.
pub open spec fn basic_events_items(
    events: Seq<(Seq<char>, BasicEvent)>,
    probabilities: Seq<Seq<char>>,
) -> Seq<XmlItem>
    decreases events.len(),
{
    if events.len() == 0 {
        Seq::empty()
    } else {
        basic_events_items(events.drop_last(), probabilities) + basic_event_items(
            events.last().1,
            probabilities[events.len() - 1],
        )
    }
}

/// The `define-house-event` tag of a house event.
pub open spec fn house_event_item(h: HouseEvent) -> XmlItem {
    XmlItem::Empty(
        "define-house-event"@,
        seq![("name"@, h.name@), ("state"@, if h.state { "true"@ } else { "false"@ })],
    )
}

/// The `define-fault-tree` element.
pub open spec fn fault_tree_items(ft: FaultTree, probabilities: Seq<Seq<char>>) -> Seq<XmlItem> {
    seq![
        XmlItem::Start("define-fault-tree"@, seq![("name"@, ft.name@)]),
        XmlItem::Empty("top-gate"@, seq![("name"@, ft.top_gate@)]),
    ] + gates_items(ft.gates@) + basic_events_items(ft.basic_events@, probabilities)
        + ft.house_events@.map_values(|e: (Seq<char>, HouseEvent)| house_event_item(e.1)) + seq![
        XmlItem::End("define-fault-tree"@),
    ]
}

/// The `functional-event` tag of a functional event.
pub open spec fn functional_event_item(fe: FunctionalEvent) -> XmlItem {
    XmlItem::Empty(
        "functional-event"@,
        seq![("name"@, fe.name@), ("fault-tree-ref"@, fe.fault_tree_ref@)],
    )
}

/// The `outcome` tags of a sequence: outcome `j` names functional event `j`.
pub open spec fn outcome_items(outcomes: Seq<bool>, fes: Seq<FunctionalEvent>) -> Seq<XmlItem> {
    Seq::new(
        outcomes.len(),
        |j: int|
            XmlItem::Empty(
                "outcome"@,
                seq![
                    ("functional-event-ref"@, fes[j].name@),
                    ("state"@, if outcomes[j] { "success"@ } else { "failure"@ }),
                ],
            ),
    )
}

/// The `sequence` element of a sequence.
pub open spec fn sequence_items(s: Sequence, fes: Seq<FunctionalEvent>) -> Seq<XmlItem> {
    seq![XmlItem::Start("sequence"@, seq![("id"@, s.id@)])] + outcome_items(s.outcomes@, fes) + seq![
        XmlItem::End("sequence"@),
    ]
}

/// The `sequence` elements, in order.
pub open spec fn sequences_items(ss: Seq<Sequence>, fes: Seq<FunctionalEvent>) -> Seq<XmlItem>
    decreases ss.len(),
{
    if ss.len() == 0 {
        Seq::empty()
    } else {
        sequences_items(ss.drop_last(), fes) + sequence_items(ss.last(), fes)
    }
}

/// The `define-event-tree` element.
pub open spec fn event_tree_items(et: EventTree) -> Seq<XmlItem> {
    seq![
        XmlItem::Start("define-event-tree"@, seq![("name"@, et.name@)]),
        XmlItem::Empty(
            "initiating-event"@,
            seq![
                ("name"@, et.initiating_event.name@),
                ("top-gate-ref"@, et.initiating_event.top_gate_ref@),
            ],
        ),
        XmlItem::Start("branch-set"@, seq![("name"@, et.branch_set.name@)]),
    ] + et.functional_events@.map_values(|fe: FunctionalEvent| functional_event_item(fe))
        + sequences_items(et.sequences@, et.functional_events@) + seq![
        XmlItem::End("branch-set"@),
        XmlItem::End("define-event-tree"@),
    ]
}

/// The whole document: the declaration, then `opsa-mef` around the fault
/// tree and, when given, the event tree.
pub open spec fn model_items(ft: FaultTree, et: Option<EventTree>, probabilities: Seq<Seq<char>>) -> Seq<
    XmlItem,
> {
    seq![XmlItem::Declaration, XmlItem::Start("opsa-mef"@, seq![("version"@, "2.0"@)])]
        + fault_tree_items(ft, probabilities) + match et {
        Some(e) => event_tree_items(e),
        None => Seq::empty(),
    } + seq![XmlItem::End("opsa-mef"@)]
}

// ─── Nesting of the layout ──────────────────────────────────────────────────

/// Two runs that each come back to the indentation `d`, keeping within
/// `bound`, do so together.
proof fn lemma_level_chain(d: nat, a: Seq<XmlItem>, b: Seq<XmlItem>, bound: nat)
    requires
        indent_from(d, a, 2) == d,
        indent_within(d, a, 2, bound),
        indent_from(d, b, 2) == d,
        indent_within(d, b, 2, bound),
    ensures
        indent_from(d, a + b, 2) == d,
        indent_within(d, a + b, 2, bound),
{
    lemma_indent_concat(d, a, b, 2);
    lemma_within_concat(d, a, b, 2, bound);
}

/// A start tag, a run that comes back to its level, and an end tag come
/// back to the level they started at.
proof fn lemma_level_wrapped(d: nat, open: XmlItem, mid: Seq<XmlItem>, close: XmlItem, bound: nat)
    requires
        open is Start,
        close is End,
        d + 2 <= bound,
        indent_from(d + 2, mid, 2) == d + 2,
        indent_within(d + 2, mid, 2, bound),
    ensures
        indent_from(d, seq![open] + mid + seq![close], 2) == d,
        indent_within(d, seq![open] + mid + seq![close], 2, bound),
{
    lemma_indent_one(d, open, 2, bound);
    lemma_within_concat(d, seq![open], mid, 2, bound);
    lemma_indent_concat(d, seq![open], mid, 2);
    lemma_indent_one(d + 2, close, 2, bound);
    lemma_within_concat(d, seq![open] + mid, seq![close], 2, bound);
    lemma_indent_concat(d, seq![open] + mid, seq![close], 2);
}

proof fn lemma_gates_level(d: nat, gates: Seq<(Seq<char>, Gate)>, bound: nat)
    requires
        d + 2 <= bound,
    ensures
        indent_from(d, gates_items(gates), 2) == d,
        indent_within(d, gates_items(gates), 2, bound),
    decreases gates.len(),
{
    if gates.len() == 0 {
        lemma_indent_flat(d, gates_items(gates), 2, bound);
    } else {
        lemma_gates_level(d, gates.drop_last(), bound);
        let g = gates.last().1;
        let ins = input_items(text_views(g.inputs@));
        lemma_indent_flat(d + 2, ins, 2, bound);
        lemma_level_wrapped(
            d,
            XmlItem::Start("define-gate"@, gate_attributes(g.name@, g.gate_type)),
            ins,
            XmlItem::End("define-gate"@),
            bound,
        );
        lemma_level_chain(d, gates_items(gates.drop_last()), gate_items(g), bound);
    }
}

proof fn lemma_basic_events_level(
    d: nat,
    events: Seq<(Seq<char>, BasicEvent)>,
    probabilities: Seq<Seq<char>>,
    bound: nat,
)
    requires
        d + 2 <= bound,
    ensures
        indent_from(d, basic_events_items(events, probabilities), 2) == d,
        indent_within(d, basic_events_items(events, probabilities), 2, bound),
    decreases events.len(),
{
    if events.len() == 0 {
        lemma_indent_flat(d, basic_events_items(events, probabilities), 2, bound);
    } else {
        lemma_basic_events_level(d, events.drop_last(), probabilities, bound);
        let b = events.last().1;
        let p = probabilities[events.len() - 1];
        let open = XmlItem::Start("define-basic-event"@, seq![("name"@, b.name@)]);
        let mid = seq![XmlItem::Empty("float"@, seq![("value"@, p)])];
        let close = XmlItem::End("define-basic-event"@);
        lemma_indent_flat(d + 2, mid, 2, bound);
        lemma_level_wrapped(d, open, mid, close, bound);
        assert(basic_event_items(b, p) =~= seq![open] + mid + seq![close]);
        lemma_level_chain(
            d,
            basic_events_items(events.drop_last(), probabilities),
            basic_event_items(b, p),
            bound,
        );
    }
}

proof fn lemma_sequences_level(d: nat, ss: Seq<Sequence>, fes: Seq<FunctionalEvent>, bound: nat)
    requires
        d + 2 <= bound,
    ensures
        indent_from(d, sequences_items(ss, fes), 2) == d,
        indent_within(d, sequences_items(ss, fes), 2, bound),
    decreases ss.len(),
{
    if ss.len() == 0 {
        lemma_indent_flat(d, sequences_items(ss, fes), 2, bound);
    } else {
        lemma_sequences_level(d, ss.drop_last(), fes, bound);
        let q = ss.last();
        let mid = outcome_items(q.outcomes@, fes);
        lemma_indent_flat(d + 2, mid, 2, bound);
        lemma_level_wrapped(
            d,
            XmlItem::Start("sequence"@, seq![("id"@, q.id@)]),
            mid,
            XmlItem::End("sequence"@),
            bound,
        );
        lemma_level_chain(d, sequences_items(ss.drop_last(), fes), sequence_items(q, fes), bound);
    }
}

proof fn lemma_fault_tree_level(d: nat, ft: FaultTree, probabilities: Seq<Seq<char>>, bound: nat)
    requires
        d + 4 <= bound,
    ensures
        indent_from(d, fault_tree_items(ft, probabilities), 2) == d,
        indent_within(d, fault_tree_items(ft, probabilities), 2, bound),
{
    let top = seq![XmlItem::Empty("top-gate"@, seq![("name"@, ft.top_gate@)])];
    let gs = gates_items(ft.gates@);
    let bs = basic_events_items(ft.basic_events@, probabilities);
    let hs = ft.house_events@.map_values(|e: (Seq<char>, HouseEvent)| house_event_item(e.1));
    let e = d + 2;
    lemma_indent_flat(e, top, 2, bound);
    lemma_gates_level(e, ft.gates@, bound);
    lemma_basic_events_level(e, ft.basic_events@, probabilities, bound);
    lemma_indent_flat(e, hs, 2, bound);
    lemma_level_chain(e, top, gs, bound);
    lemma_level_chain(e, top + gs, bs, bound);
    lemma_level_chain(e, top + gs + bs, hs, bound);
    let open = XmlItem::Start("define-fault-tree"@, seq![("name"@, ft.name@)]);
    let close = XmlItem::End("define-fault-tree"@);
    lemma_level_wrapped(d, open, top + gs + bs + hs, close, bound);
    assert(fault_tree_items(ft, probabilities) =~= seq![open] + (top + gs + bs + hs) + seq![close]);
}

proof fn lemma_event_tree_level(d: nat, et: EventTree, bound: nat)
    requires
        d + 6 <= bound,
    ensures
        indent_from(d, event_tree_items(et), 2) == d,
        indent_within(d, event_tree_items(et), 2, bound),
{
    let fes = et.functional_events@.map_values(|fe: FunctionalEvent| functional_event_item(fe));
    let ss = sequences_items(et.sequences@, et.functional_events@);
    lemma_indent_flat(d + 4, fes, 2, bound);
    lemma_sequences_level(d + 4, et.sequences@, et.functional_events@, bound);
    lemma_level_chain(d + 4, fes, ss, bound);
    let bs_open = XmlItem::Start("branch-set"@, seq![("name"@, et.branch_set.name@)]);
    let bs_close = XmlItem::End("branch-set"@);
    lemma_level_wrapped(d + 2, bs_open, fes + ss, bs_close, bound);
    let init = seq![
        XmlItem::Empty(
            "initiating-event"@,
            seq![
                ("name"@, et.initiating_event.name@),
                ("top-gate-ref"@, et.initiating_event.top_gate_ref@),
            ],
        ),
    ];
    let branch = seq![bs_open] + (fes + ss) + seq![bs_close];
    lemma_indent_flat(d + 2, init, 2, bound);
    lemma_level_chain(d + 2, init, branch, bound);
    let open = XmlItem::Start("define-event-tree"@, seq![("name"@, et.name@)]);
    let close = XmlItem::End("define-event-tree"@);
    lemma_level_wrapped(d, open, init + branch, close, bound);
    assert(event_tree_items(et) =~= seq![open] + (init + branch) + seq![close]);
}

/// The document's indentation never goes deeper than four levels, so the
/// writer's indentation stays far within `usize`.
proof fn lemma_model_indent(ft: FaultTree, et: Option<EventTree>, probabilities: Seq<Seq<char>>)
    ensures
        indent_within(0, model_items(ft, et, probabilities), 2, (usize::MAX - 2) as nat),
{
    let bound = (usize::MAX - 2) as nat;
    let tree = fault_tree_items(ft, probabilities);
    let rest: Seq<XmlItem> = match et {
        Some(e) => event_tree_items(e),
        None => Seq::empty(),
    };
    lemma_fault_tree_level(2, ft, probabilities, bound);
    match et {
        Some(e) => lemma_event_tree_level(2, e, bound),
        None => lemma_indent_flat(2, rest, 2, bound),
    }
    lemma_level_chain(2, tree, rest, bound);
    let open = XmlItem::Start("opsa-mef"@, seq![("version"@, "2.0"@)]);
    let close = XmlItem::End("opsa-mef"@);
    lemma_level_wrapped(0, open, tree + rest, close, bound);
    let body = seq![open] + (tree + rest) + seq![close];
    lemma_indent_flat(0, seq![XmlItem::Declaration], 2, bound);
    lemma_level_chain(0, seq![XmlItem::Declaration], body, bound);
    assert(model_items(ft, et, probabilities) =~= seq![XmlItem::Declaration] + body);
}

/// A fault tree's document depends on the tree and on the text of each
/// probability alone: with a formatter that gives one text for each
/// probability, any two documents that `serialize_fault_tree` or
/// `serialize_model` without an event tree can give for the tree are the
/// same.
pub proof fn law_one_document<F: Fn(u64) -> String>(
    ft: FaultTree,
    probability_text: F,
    texts1: Seq<String>,
    texts2: Seq<String>,
)
    requires
        forall|b: u64, x: String, y: String|
            #[trigger] probability_text.ensures((b,), x) && #[trigger] probability_text.ensures((b,), y)
                ==> x@ == y@,
        texts1.len() == ft.basic_events@.len(),
        texts2.len() == ft.basic_events@.len(),
        forall|p: int|
            0 <= p < texts1.len() ==> probability_text.ensures(
                (ft.basic_events@[p].1.probability,),
                #[trigger] texts1[p],
            ),
        forall|p: int|
            0 <= p < texts2.len() ==> probability_text.ensures(
                (ft.basic_events@[p].1.probability,),
                #[trigger] texts2[p],
            ),
    ensures
        rendered(model_items(ft, None, text_views(texts1)), 2, 32) == rendered(
            model_items(ft, None, text_views(texts2)),
            2,
            32,
        ),
{
    assert forall|p: int| 0 <= p < texts1.len() implies text_views(texts1)[p] == text_views(texts2)[p] by {
        assert(probability_text.ensures((ft.basic_events@[p].1.probability,), texts1[p]));
        assert(probability_text.ensures((ft.basic_events@[p].1.probability,), texts2[p]));
    }
    assert(text_views(texts1) =~= text_views(texts2));
}

/// The attributes of a `define-gate` tag spell out the operator `g`: the
/// `type` attribute is `and` exactly for an AND gate, `or` exactly for an
/// OR gate and `kofn` exactly for a K-of-N gate, which alone also gets
/// `k="{k}"`.
pub open spec fn spells_operator(attrs: Seq<(Seq<char>, Seq<char>)>, g: GateType) -> bool {
    &&& attrs.len() >= 2
    &&& attrs[1].0 == "type"@
    &&& (attrs[1].1 == "and"@ <==> g == GateType::And)
    &&& (attrs[1].1 == "or"@ <==> g == GateType::Or)
    &&& (attrs[1].1 == "kofn"@ <==> g is KofN)
    &&& match g {
        GateType::KofN(k) => attrs.len() == 3 && attrs[2] == ("k"@, decimal(k as nat)),
        _ => attrs.len() == 2,
    }
}

/// The start tag of gate `p` stands in the `define-gate` elements of the
/// gates.
proof fn lemma_gate_start_in_gates(gates: Seq<(Seq<char>, Gate)>, p: int)
    requires
        0 <= p < gates.len(),
    ensures
        exists|q: int|
            0 <= q < gates_items(gates).len() && gates_items(gates)[q] == XmlItem::Start(
                "define-gate"@,
                gate_attributes(gates[p].1.name@, gates[p].1.gate_type),
            ),
    decreases gates.len(),
{
    let a = gates_items(gates.drop_last());
    let b = gate_items(gates.last().1);
    assert(gates_items(gates) == a + b);
    if p == gates.len() - 1 {
        assert(b[0] == XmlItem::Start(
            "define-gate"@,
            gate_attributes(gates.last().1.name@, gates.last().1.gate_type),
        ));
        assert((a + b)[a.len() as int] == b[0]);
    } else {
        lemma_gate_start_in_gates(gates.drop_last(), p);
        assert(gates.drop_last()[p] == gates[p]);
        let q = choose|q: int|
            0 <= q < a.len() && a[q] == XmlItem::Start(
                "define-gate"@,
                gate_attributes(gates.drop_last()[p].1.name@, gates.drop_last()[p].1.gate_type),
            );
        assert((a + b)[q] == a[q]);
    }
}

/// In the MEF document every gate of the fault tree has a `define-gate`
/// start tag with its name and its operator spelled out: `type="and"`
/// exactly for an AND gate, `type="or"` exactly for an OR gate,
/// `type="kofn"` and `k="{k}"` exactly for a K-of-N gate; distinct
/// operators never get the same text.
pub proof fn law_gate_tags_spell_operator(
    ft: FaultTree,
    et: Option<EventTree>,
    probabilities: Seq<Seq<char>>,
)
    ensures
        forall|p: int|
            0 <= p < ft.gates@.len() ==> exists|q: int, attrs: Seq<(Seq<char>, Seq<char>)>|
                0 <= q < model_items(ft, et, probabilities).len() && model_items(ft, et, probabilities)[q]
                    == XmlItem::Start("define-gate"@, attrs) && attrs[0] == ("name"@, (
                #[trigger] ft.gates@[p]).1.name@) && spells_operator(attrs, ft.gates@[p].1.gate_type),
{
    reveal_strlit("and");
    reveal_strlit("or");
    reveal_strlit("kofn");
    assert forall|p: int| 0 <= p < ft.gates@.len() implies exists|q: int, attrs: Seq<(Seq<char>, Seq<char>)>|
        0 <= q < model_items(ft, et, probabilities).len() && model_items(ft, et, probabilities)[q]
            == XmlItem::Start("define-gate"@, attrs) && attrs[0] == ("name"@, (
        #[trigger] ft.gates@[p]).1.name@) && spells_operator(attrs, ft.gates@[p].1.gate_type) by {
        let g = ft.gates@[p].1;
        let attrs = gate_attributes(g.name@, g.gate_type);
        lemma_gate_start_in_gates(ft.gates@, p);
        let q = choose|q: int|
            0 <= q < gates_items(ft.gates@).len() && gates_items(ft.gates@)[q] == XmlItem::Start(
                "define-gate"@,
                attrs,
            );
        let head = seq![
            XmlItem::Start("define-fault-tree"@, seq![("name"@, ft.name@)]),
            XmlItem::Empty("top-gate"@, seq![("name"@, ft.top_gate@)]),
        ];
        let gs = gates_items(ft.gates@);
        let rest = basic_events_items(ft.basic_events@, probabilities) + ft.house_events@.map_values(
            |e: (Seq<char>, HouseEvent)| house_event_item(e.1),
        ) + seq![XmlItem::End("define-fault-tree"@)];
        let tree = fault_tree_items(ft, probabilities);
        assert(tree =~= head + gs + rest);
        assert(tree[q + 2] == gs[q]);
        let top = seq![XmlItem::Declaration, XmlItem::Start("opsa-mef"@, seq![("version"@, "2.0"@)])];
        let m = model_items(ft, et, probabilities);
        let tail = match et {
            Some(e) => event_tree_items(e),
            None => Seq::empty(),
        } + seq![XmlItem::End("opsa-mef"@)];
        assert(m =~= top + tree + tail);
        assert(m[q + 4] == tree[q + 2]);
        reveal_strlit("and");
        reveal_strlit("or");
        reveal_strlit("kofn");
        assert("and"@.len() == 3 && "or"@.len() == 2 && "kofn"@.len() == 4);
        assert("and"@ != "or"@ && "and"@ != "kofn"@ && "or"@ != "kofn"@);
        match g.gate_type {
            GateType::KofN(k) => {
                assert(attrs == seq![("name"@, g.name@), ("type"@, "kofn"@), ("k"@, decimal(k as nat))]);
            },
            GateType::And => {
                assert(attrs == seq![("name"@, g.name@), ("type"@, "and"@)]);
            },
            GateType::Or => {
                assert(attrs == seq![("name"@, g.name@), ("type"@, "or"@)]);
            },
        }
        assert(spells_operator(attrs, g.gate_type));
    }
}

/// The event tree behind an optional reference.
pub open spec fn tree_of(et: Option<&EventTree>) -> Option<EventTree> {
    match et {
        Some(e) => Some(*e),
        None => None,
    }
}

/// Every sequence has at most one outcome per functional event.
pub open spec fn outcomes_fit(et: EventTree) -> bool {
    forall|s: int|
        0 <= s < et.sequences@.len() ==> (#[trigger] et.sequences@[s]).outcomes@.len()
            <= et.functional_events@.len()
}

// ─── Building the events ─────────────────────────────────────────────────────

/// Appends one event.
fn emit(out: &mut Vec<XmlEvent>, e: XmlEvent)
    ensures
        items(final(out)@) == items(old(out)@).push(e@),
{
    out.push(e);
    assert(items(out@) =~= items(old(out)@).push(e@));
}

/// A tag with one attribute.
fn tag1(name: &str, key: &str, value: String) -> (t: XmlTag)
    ensures
        t.name@ == name@,
        attributes_view(t.attributes@) == seq![(key@, value@)],
{
    let mut attributes: Vec<(String, String)> = Vec::new();
    attributes.push((owned(key), value));
    let t = XmlTag { name: owned(name), attributes };
    assert(attributes_view(t.attributes@) =~= seq![(key@, value@)]);
    t
}

/// A tag with two attributes.
fn tag2(name: &str, key1: &str, value1: String, key2: &str, value2: String) -> (t: XmlTag)
    ensures
        t.name@ == name@,
        attributes_view(t.attributes@) == seq![(key1@, value1@), (key2@, value2@)],
{
    let mut attributes: Vec<(String, String)> = Vec::new();
    attributes.push((owned(key1), value1));
    attributes.push((owned(key2), value2));
    let t = XmlTag { name: owned(name), attributes };
    assert(attributes_view(t.attributes@) =~= seq![(key1@, value1@), (key2@, value2@)]);
    t
}

/// The `define-gate` start tag of a gate.
fn gate_tag(g: &Gate) -> (t: XmlTag)
    ensures
        t.name@ == "define-gate"@,
        attributes_view(t.attributes@) == gate_attributes(g.name@, g.gate_type),
{
    match g.gate_type {
        GateType::And => tag2("define-gate", "name", g.name.clone(), "type", owned("and")),
        GateType::Or => tag2("define-gate", "name", g.name.clone(), "type", owned("or")),
        GateType::KofN(k) => {
            let mut t = tag2("define-gate", "name", g.name.clone(), "type", owned("kofn"));
            let ghost before = t.attributes@;
            t.attributes.push((owned("k"), decimal_string(k as u64)));
            assert(attributes_view(t.attributes@) =~= attributes_view(before).push(
                ("k"@, decimal(k as nat)),
            ));
            t
        },
    }
}

/// The XML serializer for fault trees and event trees.
pub struct XmlSerializer;

impl XmlSerializer {
    /// Appends the `define-gate` element of `g`.
    fn write_gate(out: &mut Vec<XmlEvent>, g: &Gate)
        ensures
            items(final(out)@) == items(old(out)@) + gate_items(*g),
    {
        emit(out, XmlEvent::Start(gate_tag(g)));
        let ghost base = items(out@);
        let mut j: usize = 0;
        while j < g.inputs.len()
            invariant
                j <= g.inputs@.len(),
                items(out@) == base + input_items(text_views(g.inputs@)).take(j as int),
            decreases g.inputs@.len() - j,
        {
            emit(out, XmlEvent::Empty(tag1("input", "ref", g.inputs[j].clone())));
            assert(input_items(text_views(g.inputs@)).take(j + 1) =~= input_items(
                text_views(g.inputs@),
            ).take(j as int).push(XmlItem::Empty("input"@, seq![("ref"@, g.inputs@[j as int]@)])));
            assert(items(out@) =~= base + input_items(text_views(g.inputs@)).take(j + 1));
            j = j + 1;
        }
        assert(input_items(text_views(g.inputs@)).take(g.inputs@.len() as int) =~= input_items(
            text_views(g.inputs@),
        ));
        emit(out, XmlEvent::End(owned("define-gate")));
        assert(items(out@) =~= items(old(out)@) + gate_items(*g));
    }

    /// Appends the `define-fault-tree` element of `ft`, the basic event at
    /// position `p` with probability text `probabilities[p]`.
    fn write_fault_tree(out: &mut Vec<XmlEvent>, ft: &FaultTree, probabilities: &Vec<String>)
        requires
            probabilities@.len() == ft.basic_events@.len(),
        ensures
            items(final(out)@) == items(old(out)@) + fault_tree_items(*ft, text_views(probabilities@)),
    {
        let ghost probs = text_views(probabilities@);
        emit(out, XmlEvent::Start(tag1("define-fault-tree", "name", ft.name.clone())));
        emit(out, XmlEvent::Empty(tag1("top-gate", "name", ft.top_gate.clone())));
        let ghost head = items(out@);
        let mut p: usize = 0;
        while p < ft.gates.len()
            invariant
                p <= ft.gates@.len(),
                items(out@) == head + gates_items(ft.gates@.take(p as int)),
            decreases ft.gates@.len() - p,
        {
            Self::write_gate(out, ft.gates.value_at(p));
            assert(ft.gates@.take(p + 1).drop_last() =~= ft.gates@.take(p as int));
            assert(items(out@) =~= head + gates_items(ft.gates@.take(p + 1)));
            p = p + 1;
        }
        assert(ft.gates@.take(ft.gates@.len() as int) =~= ft.gates@);
        let ghost after_gates = items(out@);
        let mut q: usize = 0;
        while q < ft.basic_events.len()
            invariant
                q <= ft.basic_events@.len(),
                probabilities@.len() == ft.basic_events@.len(),
                probs == text_views(probabilities@),
                items(out@) == after_gates + basic_events_items(ft.basic_events@.take(q as int), probs),
            decreases ft.basic_events@.len() - q,
        {
            let be = ft.basic_events.value_at(q);
            emit(out, XmlEvent::Start(tag1("define-basic-event", "name", be.name.clone())));
            emit(out, XmlEvent::Empty(tag1("float", "value", probabilities[q].clone())));
            emit(out, XmlEvent::End(owned("define-basic-event")));
            let ghost done = ft.basic_events@.take(q + 1);
            assert(done.drop_last() =~= ft.basic_events@.take(q as int));
            assert(basic_events_items(done, probs) == basic_events_items(done.drop_last(), probs)
                + basic_event_items(done.last().1, probs[q as int]));
            assert(items(out@) =~= after_gates + basic_events_items(done, probs));
            q = q + 1;
        }
        assert(ft.basic_events@.take(ft.basic_events@.len() as int) =~= ft.basic_events@);
        let ghost after_events = items(out@);
        let ghost houses = ft.house_events@.map_values(
            |e: (Seq<char>, HouseEvent)| house_event_item(e.1),
        );
        let mut h: usize = 0;
        while h < ft.house_events.len()
            invariant
                h <= ft.house_events@.len(),
                houses == ft.house_events@.map_values(
                    |e: (Seq<char>, HouseEvent)| house_event_item(e.1),
                ),
                items(out@) == after_events + houses.take(h as int),
            decreases ft.house_events@.len() - h,
        {
            let house = ft.house_events.value_at(h);
            let state = if house.state {
                owned("true")
            } else {
                owned("false")
            };
            emit(
                out,
                XmlEvent::Empty(tag2("define-house-event", "name", house.name.clone(), "state", state)),
            );
            assert(houses.take(h + 1) =~= houses.take(h as int).push(houses[h as int]));
            assert(items(out@) =~= after_events + houses.take(h + 1));
            h = h + 1;
        }
        assert(houses.take(houses.len() as int) =~= houses);
        emit(out, XmlEvent::End(owned("define-fault-tree")));
        assert(items(out@) =~= items(old(out)@) + fault_tree_items(*ft, probs));
    }

    /// Appends the `sequence` element of `s`.
    fn write_sequence(out: &mut Vec<XmlEvent>, s: &Sequence, fes: &Vec<FunctionalEvent>)
        requires
            s.outcomes@.len() <= fes@.len(),
        ensures
            items(final(out)@) == items(old(out)@) + sequence_items(*s, fes@),
    {
        emit(out, XmlEvent::Start(tag1("sequence", "id", s.id.clone())));
        let ghost base = items(out@);
        let ghost all = outcome_items(s.outcomes@, fes@);
        let mut j: usize = 0;
        while j < s.outcomes.len()
            invariant
                j <= s.outcomes@.len(),
                s.outcomes@.len() <= fes@.len(),
                all == outcome_items(s.outcomes@, fes@),
                items(out@) == base + all.take(j as int),
            decreases s.outcomes@.len() - j,
        {
            let state = if s.outcomes[j] {
                owned("success")
            } else {
                owned("failure")
            };
            emit(
                out,
                XmlEvent::Empty(
                    tag2("outcome", "functional-event-ref", fes[j].name.clone(), "state", state),
                ),
            );
            assert(all.take(j + 1) =~= all.take(j as int).push(all[j as int]));
            assert(items(out@) =~= base + all.take(j + 1));
            j = j + 1;
        }
        assert(all.take(all.len() as int) =~= all);
        emit(out, XmlEvent::End(owned("sequence")));
        assert(items(out@) =~= items(old(out)@) + sequence_items(*s, fes@));
    }

    /// Appends the `define-event-tree` element of `et`.
    fn write_event_tree(out: &mut Vec<XmlEvent>, et: &EventTree)
        requires
            outcomes_fit(*et),
        ensures
            items(final(out)@) == items(old(out)@) + event_tree_items(*et),
    {
        emit(out, XmlEvent::Start(tag1("define-event-tree", "name", et.name.clone())));
        emit(
            out,
            XmlEvent::Empty(
                tag2(
                    "initiating-event",
                    "name",
                    et.initiating_event.name.clone(),
                    "top-gate-ref",
                    et.initiating_event.top_gate_ref.clone(),
                ),
            ),
        );
        emit(out, XmlEvent::Start(tag1("branch-set", "name", et.branch_set.name.clone())));
        let ghost head = items(out@);
        let ghost fe_items = et.functional_events@.map_values(
            |fe: FunctionalEvent| functional_event_item(fe),
        );
        let mut j: usize = 0;
        while j < et.functional_events.len()
            invariant
                j <= et.functional_events@.len(),
                fe_items == et.functional_events@.map_values(
                    |fe: FunctionalEvent| functional_event_item(fe),
                ),
                items(out@) == head + fe_items.take(j as int),
            decreases et.functional_events@.len() - j,
        {
            let fe = &et.functional_events[j];
            emit(
                out,
                XmlEvent::Empty(
                    tag2(
                        "functional-event",
                        "name",
                        fe.name.clone(),
                        "fault-tree-ref",
                        fe.fault_tree_ref.clone(),
                    ),
                ),
            );
            assert(fe_items.take(j + 1) =~= fe_items.take(j as int).push(fe_items[j as int]));
            assert(items(out@) =~= head + fe_items.take(j + 1));
            j = j + 1;
        }
        assert(fe_items.take(fe_items.len() as int) =~= fe_items);
        let ghost after_fes = items(out@);
        let mut k: usize = 0;
        while k < et.sequences.len()
            invariant
                k <= et.sequences@.len(),
                outcomes_fit(*et),
                items(out@) == after_fes + sequences_items(
                    et.sequences@.take(k as int),
                    et.functional_events@,
                ),
            decreases et.sequences@.len() - k,
        {
            Self::write_sequence(out, &et.sequences[k], &et.functional_events);
            let ghost done = et.sequences@.take(k + 1);
            assert(done.drop_last() =~= et.sequences@.take(k as int));
            assert(items(out@) =~= after_fes + sequences_items(done, et.functional_events@));
            k = k + 1;
        }
        assert(et.sequences@.take(et.sequences@.len() as int) =~= et.sequences@);
        emit(out, XmlEvent::End(owned("branch-set")));
        emit(out, XmlEvent::End(owned("define-event-tree")));
        assert(items(out@) =~= items(old(out)@) + event_tree_items(*et));
    }

    /// The events of the whole document for `fault_tree` and, when given,
    /// `event_tree`; the basic event at position `p` has probability text
    /// `probabilities[p]`.
    pub fn model_events(
        fault_tree: &FaultTree,
        event_tree: Option<&EventTree>,
        probabilities: &Vec<String>,
    ) -> (r: Vec<XmlEvent>)
        requires
            probabilities@.len() == fault_tree.basic_events@.len(),
            event_tree matches Some(e) ==> outcomes_fit(*e),
        ensures
            items(r@) == model_items(*fault_tree, tree_of(event_tree), text_views(probabilities@)),
    {
        let mut out: Vec<XmlEvent> = Vec::new();
        assert(items(out@) =~= Seq::<XmlItem>::empty());
        emit(&mut out, XmlEvent::Declaration);
        emit(&mut out, XmlEvent::Start(tag1("opsa-mef", "version", owned("2.0"))));
        Self::write_fault_tree(&mut out, fault_tree, probabilities);
        let ghost before_tree = items(out@);
        match event_tree {
            Some(et) => Self::write_event_tree(&mut out, et),
            None => {
                assert(before_tree =~= before_tree + Seq::<XmlItem>::empty());
            },
        }
        emit(&mut out, XmlEvent::End(owned("opsa-mef")));
        assert(items(out@) =~= model_items(
            *fault_tree,
            tree_of(event_tree),
            text_views(probabilities@),
        ));
        out
    }

    /// The probability texts of the basic events, in map order, as
    /// `probability_text` writes them.
    fn probability_texts<F: Fn(u64) -> String>(ft: &FaultTree, probability_text: &F) -> (r: Vec<String>)
        requires
            forall|b: u64| probability_text.requires((b,)),
        ensures
            r@.len() == ft.basic_events@.len(),
            forall|p: int|
                0 <= p < r@.len() ==> probability_text.ensures(
                    (ft.basic_events@[p].1.probability,),
                    #[trigger] r@[p],
                ),
    {
        let mut r: Vec<String> = Vec::new();
        let mut p: usize = 0;
        while p < ft.basic_events.len()
            invariant
                forall|b: u64| probability_text.requires((b,)),
                p <= ft.basic_events@.len(),
                r@.len() == p,
                forall|i: int|
                    0 <= i < p ==> probability_text.ensures(
                        (ft.basic_events@[i].1.probability,),
                        #[trigger] r@[i],
                    ),
            decreases ft.basic_events@.len() - p,
        {
            let text = probability_text(ft.basic_events.value_at(p).probability);
            r.push(text);
            p = p + 1;
        }
        r
    }

    /// Serializes `fault_tree` and, when given, `event_tree` into one
    /// Open-PSA MEF document; `probability_text` writes a basic event's
    /// probability (the bit pattern of a double).
    ///
    /// The text is the declaration, `<opsa-mef version="2.0">`,
    /// the `define-fault-tree` and `define-event-tree` elements and the
    /// closing tag, one tag per line, nested tags indented by two spaces.
    pub fn serialize_model<F: Fn(u64) -> String>(
        fault_tree: &FaultTree,
        event_tree: Option<&EventTree>,
        probability_text: &F,
    ) -> (r: Result<String, FaultTreeError>)
        requires
            forall|b: u64| probability_text.requires((b,)),
            event_tree matches Some(e) ==> outcomes_fit(*e),
        ensures
            r matches Ok(s) && exists|texts: Seq<String>|
                    {
                        &&& texts.len() == fault_tree.basic_events@.len()
                        &&& forall|p: int|
                            0 <= p < texts.len() ==> probability_text.ensures(
                                (fault_tree.basic_events@[p].1.probability,),
                                #[trigger] texts[p],
                            )
                        &&& s@ == rendered(
                            model_items(*fault_tree, tree_of(event_tree), text_views(texts)),
                            2,
                            32,
                        )
                    },
    {
        let texts = Self::probability_texts(fault_tree, probability_text);
        let events = Self::model_events(fault_tree, event_tree, &texts);
        proof {
            lemma_model_indent(*fault_tree, tree_of(event_tree), text_views(texts@));
        }
        render_xml(&events)
    }

    /// Serializes `fault_tree` alone (no event tree).
    pub fn serialize_fault_tree<F: Fn(u64) -> String>(fault_tree: &FaultTree, probability_text: &F) -> (r:
        Result<String, FaultTreeError>)
        requires
            forall|b: u64| probability_text.requires((b,)),
        ensures
            r matches Ok(s) && exists|texts: Seq<String>|
                    {
                        &&& texts.len() == fault_tree.basic_events@.len()
                        &&& forall|p: int|
                            0 <= p < texts.len() ==> probability_text.ensures(
                                (fault_tree.basic_events@[p].1.probability,),
                                #[trigger] texts[p],
                            )
                        &&& s@ == rendered(model_items(*fault_tree, None, text_views(texts)), 2, 32)
                    },
    {
        Self::serialize_model(fault_tree, None, probability_text)
    }
}

} // verus!
