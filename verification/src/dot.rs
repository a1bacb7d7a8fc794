//! A planning graph as a text that draws it.

use vstd::prelude::*;
use vstd::string::*;

use crate::graphplan::GraphPlan;

verus! {

/// The character of the digit.
pub open spec fn digit(d: nat) -> char {
    (48 + d) as char
}

/// The number, written with digits.
pub open spec fn decimal(n: nat) -> Seq<char>
    decreases n,
{
    if n < 10 {
        seq![digit(n)]
    } else {
        decimal(n / 10) + seq![digit(n % 10)]
    }
}

/// The line of a node.
pub open spec fn node_line(id: nat, name: Seq<char>) -> Seq<char> {
    "\t\t"@ + decimal(id) + " [label=\""@ + name + "\",shape=box]\n"@
}

/// The lines of the facts below `n` that have the layer `l`.
pub open spec fn fact_lines(g: GraphPlan, l: u32, n: nat) -> Seq<char>
    decreases n,
{
    if n == 0 {
        Seq::empty()
    } else {
        let rest = fact_lines(g, l, (n - 1) as nat);
        if g.fact_layer@[n - 1] == l {
            rest + node_line((n - 1) as nat, g.domain.facts.names@[n - 1]@)
        } else {
            rest
        }
    }
}

/// The lines of the actions below `n` that have the layer `l`.
pub open spec fn action_lines(g: GraphPlan, l: u32, n: nat) -> Seq<char>
    decreases n,
{
    if n == 0 {
        Seq::empty()
    } else {
        let rest = action_lines(g, l, (n - 1) as nat);
        if g.action_layer@[n - 1] == l {
            rest + node_line((n - 1) as nat, g.domain.actions@[n - 1].name@)
        } else {
            rest
        }
    }
}

/// The part of the text for the layer `l`: facts on even layers, actions on odd ones.
pub open spec fn layer_text(g: GraphPlan, l: u32) -> Seq<char> {
    let head = "\tsubgraph cluster"@ + decimal(l as nat) + " {\n\t\tlabel=\"layer"@ + decimal(
        l as nat,
    ) + "\"\n"@;
    if l % 2 == 0 {
        head + "\t\tstyle=filled;\n\t\tcolor=lightgrey;\n"@ + fact_lines(
            g,
            l,
            g.domain.n_facts(),
        ) + "\t}\n"@
    } else {
        head + action_lines(g, l, g.domain.n_actions()) + "\t}\n"@
    }
}

/// The parts of the text for the layers below `k`.
pub open spec fn layers_text(g: GraphPlan, k: nat) -> Seq<char>
    decreases k,
{
    if k == 0 {
        Seq::empty()
    } else {
        layers_text(g, (k - 1) as nat) + layer_text(g, (k - 1) as u32)
    }
}

/// The text that draws the graph, without the last layer.
pub open spec fn graph_text(g: GraphPlan) -> Seq<char> {
    "digraph G {\n\trankdir=\"LR\"\n"@ + layers_text(g, g.depth as nat) + "}\n"@
}

/// The text of the digit.
fn digit_text(d: usize) -> (r: &'static str)
    requires
        d < 10,
    ensures
        r@ == seq![digit(d as nat)],
{
    proof {
        reveal_strlit("0");
        reveal_strlit("1");
        reveal_strlit("2");
        reveal_strlit("3");
        reveal_strlit("4");
        reveal_strlit("5");
        reveal_strlit("6");
        reveal_strlit("7");
        reveal_strlit("8");
        reveal_strlit("9");
    }
    let r: &'static str = if d == 0 {
        "0"
    } else if d == 1 {
        "1"
    } else if d == 2 {
        "2"
    } else if d == 3 {
        "3"
    } else if d == 4 {
        "4"
    } else if d == 5 {
        "5"
    } else if d == 6 {
        "6"
    } else if d == 7 {
        "7"
    } else if d == 8 {
        "8"
    } else {
        "9"
    };
    assert(r@ =~= seq![digit(d as nat)]);
    r
}

/// Writes the number with digits.
fn append_decimal(text: &mut String, n: usize)
    ensures
        final(text)@ == old(text)@ + decimal(n as nat),
    decreases n,
{
    let ghost start = text@;
    if n >= 10 {
        append_decimal(text, n / 10);
        text.append(digit_text(n % 10));
        assert(text@ =~= start + decimal(n as nat));
    } else {
        text.append(digit_text(n));
    }
}

/// Writes the line of a node.
fn append_node(text: &mut String, id: usize, name: &String)
    ensures
        final(text)@ == old(text)@ + node_line(id as nat, name@),
{
    let ghost start = text@;
    text.append("\t\t");
    append_decimal(text, id);
    text.append(" [label=\"");
    text.append(name.as_str());
    text.append("\",shape=box]\n");
    assert(text@ =~= start + node_line(id as nat, name@));
}

/// Writes the part for the layer `l`.
fn append_layer(text: &mut String, g: &GraphPlan, l: u32)
    requires
        g.wf(),
    ensures
        final(text)@ == old(text)@ + layer_text(*g, l),
{
    let ghost start = text@;
    text.append("\tsubgraph cluster");
    append_decimal(text, l as usize);
    text.append(" {\n\t\tlabel=\"layer");
    append_decimal(text, l as usize);
    text.append("\"\n");
    let ghost head = "\tsubgraph cluster"@ + decimal(l as nat) + " {\n\t\tlabel=\"layer"@
        + decimal(l as nat) + "\"\n"@;
    assert(text@ =~= start + head);
    if l % 2 == 0 {
        text.append("\t\tstyle=filled;\n\t\tcolor=lightgrey;\n");
        let ghost before = text@;
        let mut f: usize = 0;
        assert(before + fact_lines(*g, l, 0) =~= before);
        while f < g.fact_layer.len()
            invariant
                g.wf(),
                f <= g.fact_layer@.len(),
                text@ == before + fact_lines(*g, l, f as nat),
            decreases g.fact_layer@.len() - f,
        {
            if g.fact_layer[f] == l {
                append_node(text, f, &g.domain.facts.names[f]);
                assert(text@ =~= before + fact_lines(*g, l, (f + 1) as nat));
            }
            f += 1;
        }
    } else {
        let ghost before = text@;
        let mut a: usize = 0;
        assert(before + action_lines(*g, l, 0) =~= before);
        while a < g.action_layer.len()
            invariant
                g.wf(),
                a <= g.action_layer@.len(),
                text@ == before + action_lines(*g, l, a as nat),
            decreases g.action_layer@.len() - a,
        {
            if g.action_layer[a] == l {
                append_node(text, a, &g.domain.actions[a].name);
                assert(text@ =~= before + action_lines(*g, l, (a + 1) as nat));
            }
            a += 1;
        }
    }
    text.append("\t}\n");
    assert(text@ =~= start + layer_text(*g, l));
}

impl<'a> GraphPlan<'a> {
    /// The text that draws the graph, without the last layer.
    pub fn to_dot(&self) -> (text: String)
        requires
            self.wf(),
        ensures
            text@ == graph_text(*self),
    {
        let mut text: String = String::new();
        text.append("digraph G {\n\trankdir=\"LR\"\n");
        let ghost head = "digraph G {\n\trankdir=\"LR\"\n"@;
        assert(text@ =~= head + layers_text(*self, 0));
        let mut l: u32 = 0;
        while l < self.depth
            invariant
                self.wf(),
                l <= self.depth,
                text@ == head + layers_text(*self, l as nat),
            decreases self.depth - l,
        {
            append_layer(&mut text, self, l);
            assert(text@ =~= head + layers_text(*self, (l + 1) as nat));
            l += 1;
        }
        text.append("}\n");
        text
    }
}

} // verus!
