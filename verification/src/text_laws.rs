//! Laws of the text that draws a planning graph.

use vstd::prelude::*;

use crate::graphplan::GraphPlan;

verus! {

/// A number is written with its digits, the greatest first.
pub proof fn law_numbers_are_written_digit_by_digit(n: nat, d: nat)
    requires
        d < 10,
    ensures
        crate::dot::decimal(d) == seq![(48 + d) as char],
        n > 0 ==> crate::dot::decimal(10 * n + d) == crate::dot::decimal(n) + seq![
            (48 + d) as char,
        ],
{
    if n > 0 {
        let x = 10 * n + d;
        assert(x / 10 == n);
        assert(x % 10 == d);
    }
}

/// The lines of a layer are put together one by one. `facts` is the text of the facts
/// of the layer up to each fact, and `actions` that of the actions.
proof fn lemma_lines(g: GraphPlan, l: u32, facts: Seq<Seq<char>>, actions: Seq<Seq<char>>, n: int)
    requires
        facts.len() == g.domain.facts.names@.len() + 1,
        facts[0].len() == 0,
        forall|f: int|
            0 < f < facts.len() ==> #[trigger] facts[f] == (if g.fact_layer@[f - 1] == l {
                facts[f - 1] + ("\t\t"@ + crate::dot::decimal((f - 1) as nat) + " [label=\""@
                    + g.domain.facts.names@[f - 1]@ + "\",shape=box]\n"@)
            } else {
                facts[f - 1]
            }),
        actions.len() == g.domain.actions@.len() + 1,
        actions[0].len() == 0,
        forall|a: int|
            0 < a < actions.len() ==> #[trigger] actions[a] == (if g.action_layer@[a - 1] == l {
                actions[a - 1] + ("\t\t"@ + crate::dot::decimal((a - 1) as nat) + " [label=\""@
                    + g.domain.actions@[a - 1].name@ + "\",shape=box]\n"@)
            } else {
                actions[a - 1]
            }),
        0 <= n,
    ensures
        n < facts.len() ==> crate::dot::fact_lines(g, l, n as nat) == facts[n],
        n < actions.len() ==> crate::dot::action_lines(g, l, n as nat) == actions[n],
    decreases n,
{
    if n > 0 {
        lemma_lines(g, l, facts, actions, n - 1);
    } else {
        assert(facts[0] =~= Seq::empty());
        assert(actions[0] =~= Seq::empty());
    }
}

/// The text has a part for each layer below the last one, in their order, between its
/// first lines and its last one. `parts` is the text up to each layer. A part has the
/// number of the layer and, on even layers, a line for each fact of the layer, and on
/// odd ones a line for each action: with the number and the name. `facts` and
/// `actions` have these lines, up to each fact and each action, for each layer.
pub proof fn law_text_has_a_line_for_each_fact_and_action(
    g: GraphPlan,
    parts: Seq<Seq<char>>,
    facts: Seq<Seq<Seq<char>>>,
    actions: Seq<Seq<Seq<char>>>,
    n: int,
)
    requires
        0 <= n <= g.depth,
        parts.len() == g.depth + 1,
        facts.len() == g.depth,
        actions.len() == g.depth,
        parts[0].len() == 0,
        forall|l: int| 0 <= l < facts.len() ==> (#[trigger] facts[l]).len()
            == g.domain.facts.names@.len() + 1 && facts[l][0].len() == 0,
        forall|l: int, f: int|
            0 <= l < facts.len() && 0 < f < facts[l].len() ==> #[trigger] facts[l][f] == (
            if g.fact_layer@[f - 1] == l {
                facts[l][f - 1] + ("\t\t"@ + crate::dot::decimal((f - 1) as nat) + " [label=\""@
                    + g.domain.facts.names@[f - 1]@ + "\",shape=box]\n"@)
            } else {
                facts[l][f - 1]
            }),
        forall|l: int| 0 <= l < actions.len() ==> (#[trigger] actions[l]).len()
            == g.domain.actions@.len() + 1 && actions[l][0].len() == 0,
        forall|l: int, a: int|
            0 <= l < actions.len() && 0 < a < actions[l].len() ==> #[trigger] actions[l][a] == (
            if g.action_layer@[a - 1] == l {
                actions[l][a - 1] + ("\t\t"@ + crate::dot::decimal((a - 1) as nat) + " [label=\""@
                    + g.domain.actions@[a - 1].name@ + "\",shape=box]\n"@)
            } else {
                actions[l][a - 1]
            }),
        forall|l: int|
            0 < l < parts.len() ==> #[trigger] parts[l] == parts[l - 1] + ("\tsubgraph cluster"@
                + crate::dot::decimal((l - 1) as nat) + " {\n\t\tlabel=\"layer"@
                + crate::dot::decimal((l - 1) as nat) + "\"\n"@ + (if (l - 1) % 2 == 0 {
                "\t\tstyle=filled;\n\t\tcolor=lightgrey;\n"@ + facts[l - 1].last() + "\t}\n"@
            } else {
                actions[l - 1].last() + "\t}\n"@
            })),
    ensures
        crate::dot::layers_text(g, n as nat) == parts[n],
        crate::dot::graph_text(g) == "digraph G {\n\trankdir=\"LR\"\n"@ + crate::dot::layers_text(
            g,
            g.depth as nat,
        ) + "}\n"@,
    decreases n,
{
    if n > 0 {
        law_text_has_a_line_for_each_fact_and_action(g, parts, facts, actions, n - 1);
        let l = n - 1;
        lemma_lines(g, l as u32, facts[l], actions[l], g.domain.facts.names@.len() as int);
        lemma_lines(g, l as u32, facts[l], actions[l], g.domain.actions@.len() as int);
        let head = "\tsubgraph cluster"@ + crate::dot::decimal(l as nat) + " {\n\t\tlabel=\"layer"@
            + crate::dot::decimal(l as nat) + "\"\n"@;
        let even = "\t\tstyle=filled;\n\t\tcolor=lightgrey;\n"@;
        assert(head + even + facts[l].last() + "\t}\n"@ =~= head + (even + facts[l].last()
            + "\t}\n"@));
        assert(head + actions[l].last() + "\t}\n"@ =~= head + (actions[l].last() + "\t}\n"@));
        assert(parts[n] == crate::dot::layers_text(g, l as nat) + crate::dot::layer_text(
            g,
            l as u32,
        ));
    } else {
        assert(parts[0] =~= Seq::empty());
    }
}

} // verus!
