//! What the interactive traversal shows, as lines of text: the header of
//! the current method, the navigation lists and the history.

use vstd::prelude::*;
use crate::text::{decimal, decimal_string, string_views, str_eq, push_char};
use crate::cli::detect_report::{confidence_text, confidence_string};
use crate::traverse::nav::{EdgeKind, EdgeView, NavEntry, NavView, nav_views};
use crate::traverse::state::{
    Judgment, TraversalState, TraversalView, key_position, evidence_views, lemma_key_position,
};

verus! {

/// A horizontal rule: `n` copies of `c`.
pub open spec fn rule(c: char, n: nat) -> Seq<char> {
    Seq::new(n, |_i: int| c)
}

/// The header above the current method.
pub open spec fn header_lines(s: TraversalView) -> Seq<Seq<char>> {
    seq![
        rule('═', 70),
        "  Entity: "@ + s.current.class + "."@ + s.current.method,
        "  Queue: "@ + decimal(s.queue.len()) + " remaining | History: "@ + decimal(s.history.len()) + " steps"@,
        rule('═', 70),
        Seq::<char>::empty(),
    ]
}

/// Whether an edge leads to a choice of implementations.
pub open spec fn is_dispatch(k: EdgeView) -> bool {
    k is Interface || k is Virtual
}

/// The first line of a navigation entry: marker, number, callee, receiver
/// and (when it differs from the receiver) the target class.
pub open spec fn entry_head(e: NavView) -> Seq<char> {
    let base = "  "@ + (if is_dispatch(e.kind) { "►"@ } else { " "@ }) + " ["@ + decimal(e.idx as nat) + "] "@
        + e.callee + " via "@ + e.via;
    if e.target.class.len() == 0 || e.via == e.target.class {
        base
    } else {
        base + " "@ + e.target.class
    }
}

/// The letter of the `i`-th implementation (`a`, `b`, ...).
pub open spec fn letter(i: int) -> char {
    (97 + i) as char
}

/// The line of the `i`-th implementation of a dispatch entry.
pub open spec fn option_line(idx: usize, i: int, o: (Seq<char>, u32), callee: Seq<char>) -> Seq<char> {
    "       ├─ ["@ + decimal(idx as nat) + seq![letter(i)] + "] "@ + o.0 + "."@ + callee + "  (c="@
        + confidence_text(o.1) + ")"@
}

/// The lines of the implementations of a dispatch entry.
pub open spec fn option_lines(idx: usize, os: Seq<(Seq<char>, u32)>, callee: Seq<char>) -> Seq<Seq<char>> {
    Seq::new(os.len(), |i: int| option_line(idx, i, os[i], callee))
}

/// The lines under an entry's first line, by the kind of its edge.
pub open spec fn kind_lines(e: NavView) -> Seq<Seq<char>> {
    match e.kind {
        EdgeView::Interface { interface, implementations } => seq!["       ══ INTERFACE: "@ + interface + " ══"@]
            + option_lines(e.idx, implementations, e.callee),
        EdgeView::Virtual { base_class, overrides } => seq!["       ══ VIRTUAL: "@ + base_class + " ══"@]
            + option_lines(e.idx, overrides, e.callee),
        EdgeView::External => seq!["       (external library)"@],
        EdgeView::Direct => Seq::empty(),
    }
}

/// The lines of one entry.
pub open spec fn entry_lines(e: NavView) -> Seq<Seq<char>> {
    seq![entry_head(e)] + kind_lines(e)
}

/// The lines of a list of entries, one after the other.
pub open spec fn entries_lines(es: Seq<NavView>) -> Seq<Seq<char>>
    decreases es.len(),
{
    if es.len() == 0 {
        Seq::empty()
    } else {
        entries_lines(es.drop_last()) + entry_lines(es.last())
    }
}

/// A navigation list under its label: `(none)` when it is empty, else
/// its entries and a blank line.
pub open spec fn nav_lines(es: Seq<NavView>, label: Seq<char>) -> Seq<Seq<char>> {
    if es.len() == 0 {
        seq!["  "@ + label + " (none)"@]
    } else {
        entries_lines(es) + seq![Seq::<char>::empty()]
    }
}

/// Every dispatch entry has few enough implementations to letter them
/// within a byte (`a` plus at most 158).
pub open spec fn letters_fit(es: Seq<NavView>) -> bool {
    forall|k: int|
        0 <= k < es.len() ==> match #[trigger] es[k].kind {
            EdgeView::Interface { implementations, .. } => implementations.len() <= 159,
            EdgeView::Virtual { overrides, .. } => overrides.len() <= 159,
            _ => true,
        }
}

/// How a judgment is labelled in the history.
pub open spec fn judgment_label(j: Judgment) -> Seq<char> {
    match j {
        Judgment::Primary => "PRIMARY FAILURE"@,
        Judgment::Symptom => "SYMPTOM ONLY"@,
        Judgment::Unrelated => "UNRELATED"@,
    }
}

/// The evidence recorded for a class (empty when there is none).
pub open spec fn evidence_of(ev: Seq<(Seq<char>, Seq<char>)>, class: Seq<char>) -> Seq<char> {
    match key_position(ev, class) {
        Some(p) => ev[p].1,
        None => Seq::empty(),
    }
}

/// The history lines: a numbered line per step, then the judgments with
/// their evidence when there are any, then a blank line.
pub open spec fn history_lines(s: TraversalView) -> Seq<Seq<char>> {
    seq![rule('─', 50), "  TRAVERSAL HISTORY"@, rule('─', 50)] + Seq::new(
        s.history.len(),
        |i: int|
            "  "@ + decimal((i + 1) as nat) + ": "@ + s.history[i].node.class + "."@ + s.history[i].node.method
                + "  →  "@ + s.history[i].action,
    ) + (if s.judgments.len() == 0 {
        Seq::empty()
    } else {
        seq![Seq::<char>::empty(), "  JUDGMENTS:"@] + Seq::new(
            s.judgments.len(),
            |i: int|
                "    "@ + s.judgments[i].0 + " → "@ + judgment_label(s.judgments[i].1) + ": "@ + evidence_of(
                    s.evidence,
                    s.judgments[i].0,
                ),
        )
    }) + seq![Seq::<char>::empty()]
}

fn rule_string(unit: &str, n: usize) -> (r: String)
    requires
        unit@.len() == 1,
    ensures
        r@ == rule(unit@[0], n as nat),
{
    let mut s = String::new();
    let mut k: usize = 0;
    while k < n
        invariant
            unit@.len() == 1,
            k <= n,
            s@ == rule(unit@[0], k as nat),
        decreases n - k,
    {
        s.append(unit);
        assert(s@ =~= rule(unit@[0], (k + 1) as nat));
        k = k + 1;
    }
    s
}

/// The header shown above the current method, as lines to print.
pub fn print_header(state: &TraversalState) -> (r: Vec<String>)
    ensures
        string_views(r@) == header_lines(state@),
{
    proof {
        reveal_strlit("═");
    }
    let mut lines: Vec<String> = Vec::new();
    lines.push(rule_string("═", 70));
    let mut l1 = String::from_str("  Entity: ");
    l1.append(state.current.class.as_str());
    l1.append(".");
    l1.append(state.current.method.as_str());
    lines.push(l1);
    let mut l2 = String::from_str("  Queue: ");
    let q = decimal_string(state.queue.len());
    l2.append(q.as_str());
    l2.append(" remaining | History: ");
    let h = decimal_string(state.history.len());
    l2.append(h.as_str());
    l2.append(" steps");
    lines.push(l2);
    lines.push(rule_string("═", 70));
    lines.push(String::new());
    proof {
        reveal_strlit("");
        assert(string_views(lines@) =~= header_lines(state@));
    }
    lines
}

/// Whether every dispatch entry can be lettered (see `letters_fit`).
pub fn nav_letters_fit(entries: &Vec<NavEntry>) -> (r: bool)
    ensures
        r == letters_fit(nav_views(entries@)),
{
    let ghost es = nav_views(entries@);
    let mut k: usize = 0;
    while k < entries.len()
        invariant
            es == nav_views(entries@),
            k <= entries@.len(),
            forall|j: int| 0 <= j < k ==> match #[trigger] es[j].kind {
                EdgeView::Interface { implementations, .. } => implementations.len() <= 159,
                EdgeView::Virtual { overrides, .. } => overrides.len() <= 159,
                _ => true,
            },
        decreases entries.len() - k,
    {
        let ok = match &entries[k].kind {
            EdgeKind::Interface { implementations, .. } => implementations.len() <= 159,
            EdgeKind::Virtual { overrides, .. } => overrides.len() <= 159,
            _ => true,
        };
        if !ok {
            assert(!(match es[k as int].kind {
                EdgeView::Interface { implementations, .. } => implementations.len() <= 159,
                EdgeView::Virtual { overrides, .. } => overrides.len() <= 159,
                _ => true,
            }));
            return false;
        }
        k = k + 1;
    }
    true
}

fn push_options(lines: &mut Vec<String>, idx: usize, os: &Vec<(String, u32)>, callee: &str)
    requires
        os@.len() <= 159,
    ensures
        string_views(final(lines)@) == string_views(old(lines)@) + option_lines(
            idx,
            os@.map_values(|e: (String, u32)| (e.0@, e.1)),
            callee@,
        ),
{
    let ghost l0 = string_views(lines@);
    let ghost ov = os@.map_values(|e: (String, u32)| (e.0@, e.1));
    let d = decimal_string(idx);
    let mut i: usize = 0;
    while i < os.len()
        invariant
            os@.len() <= 159,
            i <= os@.len(),
            ov == os@.map_values(|e: (String, u32)| (e.0@, e.1)),
            d@ == decimal(idx as nat),
            string_views(lines@) == l0 + option_lines(idx, ov, callee@).take(i as int),
        decreases os.len() - i,
    {
        let b: u8 = 97u8 + (i as u8);
        let c: char = b as char;
        assert(c == letter(i as int));
        let mut line = String::from_str("       ├─ [");
        line.append(d.as_str());
        let mut cs = String::new();
        push_char(&mut cs, c);
        line.append(cs.as_str());
        line.append("] ");
        line.append(os[i].0.as_str());
        line.append(".");
        line.append(callee);
        line.append("  (c=");
        let conf = confidence_string(os[i].1);
        line.append(conf.as_str());
        line.append(")");
        let ghost before = string_views(lines@);
        proof {
            assert(cs@ =~= seq![c]);
            assert(line@ =~= option_line(idx, i as int, ov[i as int], callee@));
        }
        lines.push(line);
        proof {
            assert(string_views(lines@) =~= before.push(option_line(idx, i as int, ov[i as int], callee@)));
            assert(option_lines(idx, ov, callee@).take(i + 1) =~= option_lines(idx, ov, callee@).take(
                i as int,
            ).push(option_line(idx, i as int, ov[i as int], callee@)));
        }
        i = i + 1;
    }
    assert(option_lines(idx, ov, callee@).take(os@.len() as int) =~= option_lines(idx, ov, callee@));
}

fn push_entry(lines: &mut Vec<String>, e: &NavEntry)
    requires
        match e@.kind {
            EdgeView::Interface { implementations, .. } => implementations.len() <= 159,
            EdgeView::Virtual { overrides, .. } => overrides.len() <= 159,
            _ => true,
        },
    ensures
        string_views(final(lines)@) == string_views(old(lines)@) + entry_lines(e@),
{
    let ghost l0 = string_views(lines@);
    let dispatch = match &e.kind {
        EdgeKind::Interface { .. } => true,
        EdgeKind::Virtual { .. } => true,
        _ => false,
    };
    let mut head = String::from_str("  ");
    if dispatch {
        head.append("►");
    } else {
        head.append(" ");
    }
    head.append(" [");
    let d = decimal_string(e.idx);
    head.append(d.as_str());
    head.append("] ");
    head.append(e.callee.as_str());
    head.append(" via ");
    head.append(e.via.as_str());
    if !(e.target.class.unicode_len() == 0 || str_eq(e.via.as_str(), e.target.class.as_str())) {
        head.append(" ");
        head.append(e.target.class.as_str());
    }
    assert(head@ =~= entry_head(e@));
    lines.push(head);
    assert(string_views(lines@) =~= l0 + seq![entry_head(e@)]);
    let ghost l1 = string_views(lines@);
    match &e.kind {
        EdgeKind::Interface { interface, implementations } => {
            let mut t = String::from_str("       ══ INTERFACE: ");
            t.append(interface.as_str());
            t.append(" ══");
            lines.push(t);
            assert(string_views(lines@) =~= l1.push("       ══ INTERFACE: "@ + interface@ + " ══"@));
            push_options(lines, e.idx, implementations, e.callee.as_str());
        },
        EdgeKind::Virtual { base_class, overrides } => {
            let mut t = String::from_str("       ══ VIRTUAL: ");
            t.append(base_class.as_str());
            t.append(" ══");
            lines.push(t);
            assert(string_views(lines@) =~= l1.push("       ══ VIRTUAL: "@ + base_class@ + " ══"@));
            push_options(lines, e.idx, overrides, e.callee.as_str());
        },
        EdgeKind::External => {
            lines.push(String::from_str("       (external library)"));
            assert(string_views(lines@) =~= l1.push("       (external library)"@));
        },
        EdgeKind::Direct => {},
    }
    assert(string_views(lines@) =~= l0 + entry_lines(e@));
}

/// A navigation list under its label, as lines to print (see
/// `nav_lines`).
pub fn print_nav(entries: &Vec<NavEntry>, label: &str) -> (r: Vec<String>)
    requires
        letters_fit(nav_views(entries@)),
    ensures
        string_views(r@) == nav_lines(nav_views(entries@), label@),
{
    let ghost es = nav_views(entries@);
    let mut lines: Vec<String> = Vec::new();
    if entries.len() == 0 {
        let mut l = String::from_str("  ");
        l.append(label);
        l.append(" (none)");
        lines.push(l);
        assert(string_views(lines@) =~= nav_lines(es, label@));
        return lines;
    }
    let mut i: usize = 0;
    assert(string_views(lines@) =~= entries_lines(es.take(0)));
    while i < entries.len()
        invariant
            es == nav_views(entries@),
            letters_fit(es),
            i <= entries@.len(),
            string_views(lines@) == entries_lines(es.take(i as int)),
        decreases entries.len() - i,
    {
        assert(es[i as int] == entries@[i as int]@);
        push_entry(&mut lines, &entries[i]);
        assert(es.take(i + 1).drop_last() =~= es.take(i as int));
        i = i + 1;
    }
    assert(es.take(entries@.len() as int) =~= es);
    let ghost before = string_views(lines@);
    lines.push(String::new());
    proof {
        reveal_strlit("");
        assert(string_views(lines@) =~= before.push(Seq::<char>::empty()));
        assert(string_views(lines@) =~= nav_lines(es, label@));
    }
    lines
}

fn evidence_lookup(ev: &Vec<(String, String)>, class: &str) -> (r: String)
    ensures
        r@ == evidence_of(evidence_views(ev@), class@),
{
    let ghost sv = evidence_views(ev@);
    let mut p: usize = 0;
    while p < ev.len() && !str_eq(ev[p].0.as_str(), class)
        invariant
            sv == evidence_views(ev@),
            p <= ev@.len(),
            forall|j: int| 0 <= j < p ==> (#[trigger] sv[j]).0 != class@,
        decreases ev.len() - p,
    {
        p = p + 1;
    }
    proof {
        lemma_key_position(sv, class@, p as int);
    }
    if p < ev.len() {
        ev[p].1.clone()
    } else {
        proof {
            reveal_strlit("");
        }
        String::new()
    }
}

/// The traversal history, as lines to print (see `history_lines`).
pub fn print_history(state: &TraversalState) -> (r: Vec<String>)
    ensures
        string_views(r@) == history_lines(state@),
{
    let ghost s = state@;
    proof {
        reveal_strlit("─");
        reveal_strlit("");
    }
    let mut lines: Vec<String> = Vec::new();
    lines.push(rule_string("─", 50));
    lines.push(String::from_str("  TRAVERSAL HISTORY"));
    lines.push(rule_string("─", 50));
    let ghost head = seq![rule('─', 50), "  TRAVERSAL HISTORY"@, rule('─', 50)];
    assert(string_views(lines@) =~= head);
    let ghost steps = Seq::new(
        s.history.len(),
        |i: int|
            "  "@ + decimal((i + 1) as nat) + ": "@ + s.history[i].node.class + "."@ + s.history[i].node.method
                + "  →  "@ + s.history[i].action,
    );
    let mut i: usize = 0;
    while i < state.history.len()
        invariant
            s == state@,
            i <= state.history@.len(),
            steps.len() == state.history@.len(),
            forall|k: int| 0 <= k < steps.len() ==> #[trigger] steps[k] == "  "@ + decimal((k + 1) as nat) + ": "@
                + s.history[k].node.class + "."@ + s.history[k].node.method + "  →  "@ + s.history[k].action,
            string_views(lines@) == head + steps.take(i as int),
        decreases state.history.len() - i,
    {
        let h = &state.history[i];
        let mut l = String::from_str("  ");
        let n = decimal_string(i + 1);
        l.append(n.as_str());
        l.append(": ");
        l.append(h.node.class.as_str());
        l.append(".");
        l.append(h.node.method.as_str());
        l.append("  →  ");
        l.append(h.action.as_str());
        assert(s.history[i as int] == h@);
        assert(l@ =~= steps[i as int]);
        let ghost before = string_views(lines@);
        lines.push(l);
        assert(string_views(lines@) =~= before.push(steps[i as int]));
        assert(steps.take(i + 1) =~= steps.take(i as int).push(steps[i as int]));
        i = i + 1;
    }
    assert(steps.take(steps.len() as int) =~= steps);
    let ghost upto = string_views(lines@);
    if state.judgments.len() > 0 {
        lines.push(String::new());
        lines.push(String::from_str("  JUDGMENTS:"));
        let ghost js = Seq::new(
            s.judgments.len(),
            |i: int|
                "    "@ + s.judgments[i].0 + " → "@ + judgment_label(s.judgments[i].1) + ": "@ + evidence_of(
                    s.evidence,
                    s.judgments[i].0,
                ),
        );
        let ghost mid = upto + seq![Seq::<char>::empty(), "  JUDGMENTS:"@];
        assert(string_views(lines@) =~= mid);
        let mut k: usize = 0;
        while k < state.judgments.len()
            invariant
                s == state@,
                k <= state.judgments@.len(),
                js.len() == state.judgments@.len(),
                forall|m: int| 0 <= m < js.len() ==> #[trigger] js[m] == "    "@ + s.judgments[m].0 + " → "@
                    + judgment_label(s.judgments[m].1) + ": "@ + evidence_of(s.evidence, s.judgments[m].0),
                string_views(lines@) == mid + js.take(k as int),
            decreases state.judgments.len() - k,
        {
            let (class, j) = (&state.judgments[k].0, state.judgments[k].1);
            let mut l = String::from_str("    ");
            l.append(class.as_str());
            l.append(" → ");
            match j {
                Judgment::Primary => l.append("PRIMARY FAILURE"),
                Judgment::Symptom => l.append("SYMPTOM ONLY"),
                Judgment::Unrelated => l.append("UNRELATED"),
            }
            l.append(": ");
            let ev = evidence_lookup(&state.evidence, class.as_str());
            l.append(ev.as_str());
            assert(s.judgments[k as int] == (class@, j));
            assert(l@ =~= js[k as int]);
            let ghost before = string_views(lines@);
            lines.push(l);
            assert(string_views(lines@) =~= before.push(js[k as int]));
            assert(js.take(k + 1) =~= js.take(k as int).push(js[k as int]));
            k = k + 1;
        }
        assert(js.take(js.len() as int) =~= js);
    }
    let ghost before = string_views(lines@);
    lines.push(String::new());
    assert(string_views(lines@) =~= before.push(Seq::<char>::empty()));
    assert(string_views(lines@) =~= history_lines(s));
    lines
}

} // verus!
