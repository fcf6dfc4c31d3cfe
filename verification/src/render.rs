//! Textual rendering of a completed reachability analysis: one line per
//! transition, the marking table with one fixed-width column per place,
//! the interpretation of every deadlocked marking, and the summary of the
//! derived net-level properties.

use crate::analysis::{Continuation, MarkingId, ReachabilityAnalysis, Row};
use crate::marking::{Marking, MarkingFn, PlaceId};
use crate::net::{PetriNet, TransitionId};
use crate::props::{Bound, Live, Liveness};
use crate::report::{
    deadlocks_spec, live_spec, quasi_live_spec, safe_spec, seq_bound_max, sound_spec,
    DeadlockInterpretation,
};
use vstd::prelude::*;
use vstd::string::StringExecFns;

verus! {

/// The decimal digit character for `d` (meaningful for `d < 10`).
pub open spec fn dec_digit(d: nat) -> char {
    if d == 0 {
        '0'
    } else if d == 1 {
        '1'
    } else if d == 2 {
        '2'
    } else if d == 3 {
        '3'
    } else if d == 4 {
        '4'
    } else if d == 5 {
        '5'
    } else if d == 6 {
        '6'
    } else if d == 7 {
        '7'
    } else if d == 8 {
        '8'
    } else {
        '9'
    }
}

/// The decimal rendering of `n`, most significant digit first.
pub open spec fn dec_str(n: nat) -> Seq<char>
    decreases n,
{
    if n < 10 {
        seq![dec_digit(n)]
    } else {
        dec_str(n / 10).push(dec_digit(n % 10))
    }
}

/// `n` rendered with at least three digits, zero-padded on the left.
pub open spec fn pad3(n: nat) -> Seq<char> {
    if n < 10 {
        seq!['0', '0'] + dec_str(n)
    } else if n < 100 {
        seq!['0'] + dec_str(n)
    } else {
        dec_str(n)
    }
}

/// A marking id renders as `M` followed by its zero-padded index.
pub open spec fn m_text(n: nat) -> Seq<char> {
    seq!['M'] + pad3(n)
}

/// A transition id renders as `T` followed by its index.
pub open spec fn t_text(n: nat) -> Seq<char> {
    seq!['T'] + dec_str(n)
}

/// A place id renders as `P` followed by its index.
pub open spec fn p_text(n: nat) -> Seq<char> {
    seq!['P'] + dec_str(n)
}

/// `n` space characters.
pub open spec fn spaces(n: nat) -> Seq<char>
    decreases n,
{
    if n == 0 {
        Seq::empty()
    } else {
        spaces((n - 1) as nat).push(' ')
    }
}

/// `s` left-aligned in a column of width `w`.
pub open spec fn pad_to(s: Seq<char>, w: nat) -> Seq<char> {
    if s.len() >= w {
        s
    } else {
        s + spaces((w - s.len()) as nat)
    }
}

/// The items joined by the separator.
pub open spec fn join_texts(items: Seq<Seq<char>>, sep: Seq<char>) -> Seq<char>
    decreases items.len(),
{
    if items.len() == 0 {
        Seq::empty()
    } else if items.len() == 1 {
        items[0]
    } else {
        join_texts(items.drop_last(), sep) + sep + items.last()
    }
}

/// `true` or `false`.
pub open spec fn bool_text(b: bool) -> Seq<char> {
    if b {
        "true"@
    } else {
        "false"@
    }
}

/// A continuation renders as `T<t>-><M id>`.
pub open spec fn cont_text(c: Continuation) -> Seq<char> {
    t_text(c.0.0 as nat) + "->"@ + m_text(c.1.0 as nat)
}

/// A bound renders as `<n>-Bounded` or `Unbounded`.
pub open spec fn bound_text(b: Bound) -> Seq<char> {
    match b {
        Bound::Bounded(t) => dec_str(t.0 as nat) + "-Bounded"@,
        Bound::Unbounded => "Unbounded"@,
    }
}

/// A deadlock interpretation renders as `final` or `deadlock`.
pub open spec fn interp_text(d: DeadlockInterpretation) -> Seq<char> {
    match d {
        DeadlockInterpretation::Final => "final"@,
        DeadlockInterpretation::Deadlock => "deadlock"@,
    }
}

/// The label of a liveness class.
pub open spec fn live_label(c: Live) -> Seq<char> {
    match c {
        Live::L0 => "L0"@,
        Live::L1 => "L1"@,
        Live::L2 => "L2"@,
        Live::L3 => "L3"@,
        Live::L4 => "L4"@,
    }
}

/// The decimal rendering of a number, as a `String`.
pub fn dec_string(n: usize) -> (s: String)
    ensures
        s@ == dec_str(n as nat),
    decreases n,
{
    if n < 10 {
        let s = match n {
            0 => "0",
            1 => "1",
            2 => "2",
            3 => "3",
            4 => "4",
            5 => "5",
            6 => "6",
            7 => "7",
            8 => "8",
            _ => "9",
        };
        proof {
            reveal_strlit("0");
            reveal_strlit("1");
            reveal_strlit("2");
            reveal_strlit("3");
            reveal_strlit("4");
            reveal_strlit("5");
            reveal_strlit("6");
            reveal_strlit("7");
            reveal_strlit("8");
            reveal_strlit("9");
            assert(s@ =~= seq![dec_digit(n as nat)]);
        }
        String::from_str(s)
    } else {
        proof {
            assert(n / 10 < n) by (nonlinear_arith)
                requires
                    10 <= n,
            ;
        }
        let mut s = dec_string(n / 10);
        let d = dec_string(n % 10);
        proof {
            assert(n % 10 < 10) by (nonlinear_arith);
            assert(dec_str((n % 10) as nat) =~= seq![dec_digit((n % 10) as nat)]);
        }
        s.append(d.as_str());
        proof {
            assert(s@ =~= dec_str(n as nat));
        }
        s
    }
}

impl MarkingId {
    /// The display form of a marking id: `M` followed by the zero-padded
    /// three-digit index, e.g. `M000`, `M012`.
    pub fn to_text(&self) -> (s: String)
        ensures
            s@ == m_text(self.0 as nat),
    {
        let mut s = String::from_str("M");
        if self.0 < 10 {
            s.append("00");
        } else if self.0 < 100 {
            s.append("0");
        }
        let d = dec_string(self.0);
        s.append(d.as_str());
        proof {
            reveal_strlit("M");
            reveal_strlit("0");
            reveal_strlit("00");
            assert("M"@ =~= seq!['M']);
            assert("00"@ =~= seq!['0', '0']);
            assert("0"@ =~= seq!['0']);
            assert(s@ =~= m_text(self.0 as nat));
        }
        s
    }
}

impl TransitionId {
    /// The display form of a transition id: `T` followed by its index.
    pub fn to_text(&self) -> (s: String)
        ensures
            s@ == t_text(self.0 as nat),
    {
        let mut s = String::from_str("T");
        let d = dec_string(self.0);
        s.append(d.as_str());
        proof {
            reveal_strlit("T");
            assert("T"@ =~= seq!['T']);
            assert(s@ =~= t_text(self.0 as nat));
        }
        s
    }
}

impl PlaceId {
    /// The display form of a place id: `P` followed by its index.
    pub fn to_text(&self) -> (s: String)
        ensures
            s@ == p_text(self.0 as nat),
    {
        let mut s = String::from_str("P");
        let d = dec_string(self.0);
        s.append(d.as_str());
        proof {
            reveal_strlit("P");
            assert("P"@ =~= seq!['P']);
            assert(s@ =~= p_text(self.0 as nat));
        }
        s
    }
}

impl Continuation {
    /// The display form of a continuation, e.g. `T1->M002`.
    pub fn to_text(&self) -> (s: String)
        ensures
            s@ == cont_text(*self),
    {
        let mut s = self.0.to_text();
        s.append("->");
        let m = self.1.to_text();
        s.append(m.as_str());
        proof {
            assert(s@ =~= cont_text(*self));
        }
        s
    }
}

/// Left-align `s`, whose character count is `len`, in a column of width
/// `w` by appending spaces.
pub fn pad_string(s: String, len: usize, w: usize) -> (r: String)
    requires
        len as nat == s@.len(),
    ensures
        r@ == pad_to(s@, w as nat),
    decreases w,
{
    let mut r = s;
    let mut missing: usize = if len >= w {
        0
    } else {
        w - len
    };
    proof {
        assert(r@ + spaces(0) =~= r@);
        assert(pad_to(r@, w as nat) == r@ + spaces(missing as nat));
    }
    let ghost base = r@;
    let ghost total = missing;
    while missing > 0
        invariant
            missing <= total,
            r@ == base + spaces((total - missing) as nat),
        decreases missing,
    {
        r.append(" ");
        proof {
            reveal_strlit(" ");
            assert(" "@ =~= seq![' ']);
            assert(base + spaces((total - missing) as nat) + " "@ =~= base + spaces(
                (total - missing + 1) as nat,
            ));
        }
        missing -= 1;
    }
    proof {
        assert(r@ == base + spaces(total as nat));
    }
    r
}

/// Join the items with the separator between consecutive ones.
pub fn join_strings(items: &Vec<String>, sep: &str) -> (s: String)
    ensures
        s@ == join_texts(items@.map_values(|x: String| x@), sep@),
    decreases items@.len(),
{
    let ghost texts = items@.map_values(|x: String| x@);
    if items.len() == 0 {
        let s = String::new();
        proof {
            assert(s@ =~= join_texts(texts, sep@));
        }
        s
    } else {
        let mut s = items[0].clone();
        let mut i: usize = 1;
        proof {
            assert(texts.take(1).len() == 1);
            assert(texts.take(1)[0] == items@[0]@);
            assert(s@ == join_texts(texts.take(1), sep@));
        }
        while i < items.len()
            invariant
                1 <= i <= items@.len(),
                texts == items@.map_values(|x: String| x@),
                s@ == join_texts(texts.take(i as int), sep@),
            decreases items@.len() - i,
        {
            s.append(sep);
            s.append(items[i].as_str());
            proof {
                assert(texts.take(i as int + 1).drop_last() =~= texts.take(i as int));
                assert(texts.take(i as int + 1).last() == items@[i as int]@);
                assert(texts.take(i as int + 1).len() >= 2);
            }
            i += 1;
        }
        proof {
            assert(texts.take(texts.len() as int) =~= texts);
        }
        s
    }
}

/// The decimal rendering's length falls into fixed thresholds.
pub proof fn lemma_dec_len(n: nat)
    ensures
        n < 10 ==> dec_str(n).len() == 1,
        10 <= n < 100 ==> dec_str(n).len() == 2,
        100 <= n < 1000 ==> dec_str(n).len() == 3,
        1000 <= n < 10000 ==> dec_str(n).len() == 4,
        10000 <= n < 100000 ==> dec_str(n).len() == 5,
        100000 <= n ==> dec_str(n).len() >= 6,
    decreases n,
{
    if n >= 10 {
        lemma_dec_len(n / 10);
        assert(10 <= n < 100 ==> n / 10 < 10) by (nonlinear_arith);
        assert(100 <= n < 1000 ==> 10 <= n / 10 < 100) by (nonlinear_arith);
        assert(1000 <= n < 10000 ==> 100 <= n / 10 < 1000) by (nonlinear_arith);
        assert(10000 <= n < 100000 ==> 1000 <= n / 10 < 10000) by (nonlinear_arith);
        assert(100000 <= n ==> 10000 <= n / 10) by (nonlinear_arith);
    }
}

/// Append `count` spaces to a string.
fn append_spaces(s: &mut String, count: usize)
    ensures
        final(s)@ == old(s)@ + spaces(count as nat),
{
    let ghost base = s@;
    let mut left = count;
    proof {
        assert(base + spaces(0) =~= base);
    }
    while left > 0
        invariant
            left <= count,
            s@ == base + spaces((count - left) as nat),
        decreases left,
    {
        s.append(" ");
        proof {
            reveal_strlit(" ");
            assert(" "@ =~= seq![' ']);
            assert(base + spaces((count - left) as nat) + " "@ =~= base + spaces(
                (count - left + 1) as nat,
            ));
        }
        left -= 1;
    }
}

/// A marking id as a fixed-width left-aligned column of width 7.
fn m_col(id: MarkingId) -> (s: String)
    ensures
        s@ == pad_to(m_text(id.0 as nat), 7),
{
    let mut s = id.to_text();
    proof {
        lemma_dec_len(id.0 as nat);
    }
    let missing: usize = if id.0 < 1000 {
        3
    } else if id.0 < 10000 {
        2
    } else if id.0 < 100000 {
        1
    } else {
        0
    };
    append_spaces(&mut s, missing);
    proof {
        assert(s@ =~= pad_to(m_text(id.0 as nat), 7));
    }
    s
}

/// A place id as a fixed-width left-aligned column of width 5.
fn p_col(p: PlaceId) -> (s: String)
    ensures
        s@ == pad_to(p_text(p.0 as nat), 5),
{
    let mut s = p.to_text();
    proof {
        lemma_dec_len(p.0 as nat);
    }
    let missing: usize = if p.0 < 10 {
        3
    } else if p.0 < 100 {
        2
    } else if p.0 < 1000 {
        1
    } else {
        0
    };
    append_spaces(&mut s, missing);
    proof {
        assert(s@ =~= pad_to(p_text(p.0 as nat), 5));
    }
    s
}

/// A token count as a fixed-width left-aligned column of width 5.
fn count_col(n: usize) -> (s: String)
    ensures
        s@ == pad_to(dec_str(n as nat), 5),
{
    let mut s = dec_string(n);
    proof {
        lemma_dec_len(n as nat);
    }
    let missing: usize = if n < 10 {
        4
    } else if n < 100 {
        3
    } else if n < 1000 {
        2
    } else if n < 10000 {
        1
    } else {
        0
    };
    append_spaces(&mut s, missing);
    proof {
        assert(s@ =~= pad_to(dec_str(n as nat), 5));
    }
    s
}

/// The transition listing: one line `T<t> ... <name>` per transition.
pub open spec fn transitions_lines(net: &PetriNet, upto: int) -> Seq<char>
    decreases upto,
{
    if upto <= 0 {
        Seq::empty()
    } else {
        transitions_lines(net, upto - 1) + t_text((upto - 1) as nat) + " ... "@
            + net.transitions@[upto - 1].name@ + "\n"@
    }
}

/// The fixed-width columns of all place labels.
pub open spec fn place_cols(net: &PetriNet, upto: int) -> Seq<char>
    decreases upto,
{
    if upto <= 0 {
        Seq::empty()
    } else {
        place_cols(net, upto - 1) + pad_to(p_text((upto - 1) as nat), 5)
    }
}

/// The header row: the `M` column, one column per place, `Transitions`.
pub open spec fn header_line(net: &PetriNet) -> Seq<char> {
    pad_to("M"@, 7) + place_cols(net, net.n_places()) + "Transitions\n"@
}

/// The fixed-width token-count columns of one marking.
pub open spec fn count_cols(m: Marking, upto: int) -> Seq<char>
    decreases upto,
{
    if upto <= 0 {
        Seq::empty()
    } else {
        count_cols(m, upto - 1) + pad_to(dec_str(m.count(upto - 1)), 5)
    }
}

/// The rendered continuations of one row.
pub open spec fn conts_texts(cs: Seq<Continuation>) -> Seq<Seq<char>> {
    cs.map_values(|c: Continuation| cont_text(c))
}

/// One row of the marking table.
pub open spec fn row_line(net: &PetriNet, row: Row) -> Seq<char> {
    pad_to(m_text(row.0.0 as nat), 7) + count_cols(row.1, net.n_places()) + join_texts(
        conts_texts(row.2@),
        ", "@,
    ) + "\n"@
}

/// The body of the marking table.
pub open spec fn rows_lines(net: &PetriNet, rows: Seq<Row>, upto: int) -> Seq<char>
    decreases upto,
{
    if upto <= 0 {
        Seq::empty()
    } else {
        rows_lines(net, rows, upto - 1) + row_line(net, rows[upto - 1])
    }
}

/// The interpretation lines: one per deadlocked marking.
pub open spec fn interp_lines(
    dl: Seq<(MarkingId, DeadlockInterpretation)>,
    upto: int,
) -> Seq<char>
    decreases upto,
{
    if upto <= 0 {
        Seq::empty()
    } else {
        interp_lines(dl, upto - 1) + m_text(dl[upto - 1].0.0 as nat) + ": "@ + interp_text(
            dl[upto - 1].1,
        ) + "\n"@
    }
}

/// The transitions recorded in class `c`, in id order, among the first
/// `upto` transitions.
pub open spec fn class_members(l: Seq<Live>, c: Live, upto: int) -> Seq<TransitionId>
    decreases upto,
{
    if upto <= 0 {
        Seq::empty()
    } else {
        let pre = class_members(l, c, upto - 1);
        if l[upto - 1] == c {
            pre.push(TransitionId((upto - 1) as usize))
        } else {
            pre
        }
    }
}

/// One liveness class with its transition list, e.g. `L1 (T0, T2)`.
pub open spec fn class_text(l: Seq<Live>, c: Live) -> Seq<char> {
    live_label(c) + " ("@ + join_texts(
        class_members(l, c, l.len() as int).map_values(|t: TransitionId| t_text(t.0 as nat)),
        ", "@,
    ) + ")"@
}

/// The liveness summary: all five classes, separated by `; `.
pub open spec fn liveness_text(l: Seq<Live>) -> Seq<char> {
    join_texts(
        seq![
            class_text(l, Live::L0),
            class_text(l, Live::L1),
            class_text(l, Live::L2),
            class_text(l, Live::L3),
            class_text(l, Live::L4),
        ],
        "; "@,
    )
}

/// The graph part of the report: transition listing, marking table, and
/// interpretation lines.
pub open spec fn front_text(a: &ReachabilityAnalysis) -> Seq<char> {
    let net = a.petri_net;
    transitions_lines(net, net.n_transitions()) + "\n"@ + header_line(net) + rows_lines(
        net,
        a.rows@,
        a.rows@.len() as int,
    ) + "\n"@ + "Interpretation\n"@ + interp_lines(
        deadlocks_spec(net, a.rows@),
        deadlocks_spec(net, a.rows@).len() as int,
    )
}

/// The summary part of the report: the derived net-level properties.
pub open spec fn summary_text(a: &ReachabilityAnalysis) -> Seq<char> {
    "Boundedness: "@ + bound_text(seq_bound_max(a.boundedness@)) + "\n"@ + "Safe: "@ + bool_text(
        safe_spec(a.boundedness@),
    ) + "\n"@ + "Live: "@ + bool_text(live_spec(a.liveness@)) + "\n"@ + "Quasi-Live: "@ + bool_text(
        quasi_live_spec(a.liveness@),
    ) + "\n"@ + "Liveness: "@ + liveness_text(a.liveness@) + "\n"@ + "Loops: "@ + "\n"@
        + "Sound: "@ + bool_text(sound_spec(a.liveness@, a.boundedness@)) + "\n"@
}

/// The full report of a completed analysis.
pub open spec fn report_text(a: &ReachabilityAnalysis) -> Seq<char> {
    front_text(a) + summary_text(a)
}

/// One liveness class rendered as a `String`.
#[verifier::loop_isolation(false)]
fn class_string(liveness: &Liveness, c: Live) -> (s: String)
    ensures
        s@ == class_text(liveness@, c),
{
    let label: &str = match c {
        Live::L0 => "L0",
        Live::L1 => "L1",
        Live::L2 => "L2",
        Live::L3 => "L3",
        Live::L4 => "L4",
    };
    let mut items: Vec<String> = Vec::new();
    let mut t: usize = 0;
    let ghost f = |tid: TransitionId| t_text(tid.0 as nat);
    while t < liveness.0.len()
        invariant
            t <= liveness.0@.len(),
            items@.map_values(|x: String| x@) =~= class_members(liveness@, c, t as int).map_values(
                f,
            ),
        decreases liveness.0@.len() - t,
    {
        let ghost pre = class_members(liveness@, c, t as int);
        if live_eq(liveness.0[t], c) {
            let text = TransitionId(t).to_text();
            items.push(text);
            proof {
                assert(class_members(liveness@, c, t as int + 1) == pre.push(TransitionId(t)));
                assert(pre.push(TransitionId(t)).map_values(f) =~= pre.map_values(f).push(
                    f(TransitionId(t)),
                ));
                assert(items@.map_values(|x: String| x@) =~= pre.map_values(f).push(
                    t_text(t as nat),
                ));
            }
        } else {
            proof {
                assert(class_members(liveness@, c, t as int + 1) == pre);
            }
        }
        t += 1;
    }
    let mut s = String::from_str(label);
    s.append(" (");
    let joined = join_strings(&items, ", ");
    s.append(joined.as_str());
    s.append(")");
    proof {
        assert(s@ =~= class_text(liveness@, c));
    }
    s
}

/// Structural equality of two liveness classes.
fn live_eq(a: Live, b: Live) -> (r: bool)
    ensures
        r == (a == b),
{
    crate::props::live_rank_exec(a) == crate::props::live_rank_exec(b)
}

/// The transition listing as a `String`.
#[verifier::loop_isolation(false)]
fn transitions_text(net: &PetriNet) -> (s: String)
    requires
        forall|i: int|
            0 <= i < net.n_transitions() ==> (#[trigger] net.transitions@[i]).id.0 == i,
    ensures
        s@ == transitions_lines(net, net.n_transitions()),
{
    let mut s = String::new();
    let mut t: usize = 0;
    proof {
        assert(s@ =~= transitions_lines(net, 0));
    }
    while t < net.transitions.len()
        invariant
            t <= net.transitions@.len(),
            s@ == transitions_lines(net, t as int),
        decreases net.transitions@.len() - t,
    {
        let text = net.transitions[t].id.to_text();
        s.append(text.as_str());
        s.append(" ... ");
        s.append(net.transitions[t].name.as_str());
        s.append("\n");
        proof {
            assert(s@ =~= transitions_lines(net, t as int + 1));
        }
        t += 1;
    }
    s
}

/// The header row as a `String`.
#[verifier::loop_isolation(false)]
fn header_text(net: &PetriNet) -> (s: String)
    requires
        forall|i: int| 0 <= i < net.n_places() ==> (#[trigger] net.places@[i]).0 == i,
    ensures
        s@ == header_line(net),
{
    proof {
        reveal_strlit("M");
        assert("M"@ =~= seq!['M']);
    }
    let mut s = pad_string(String::from_str("M"), 1, 7);
    let mut p: usize = 0;
    proof {
        assert(s@ =~= pad_to("M"@, 7) + place_cols(net, 0));
    }
    while p < net.places.len()
        invariant
            p <= net.places@.len(),
            s@ == pad_to("M"@, 7) + place_cols(net, p as int),
        decreases net.places@.len() - p,
    {
        let col = p_col(net.places[p]);
        s.append(col.as_str());
        proof {
            assert(net.places@[p as int].0 == p);
            assert(s@ =~= pad_to("M"@, 7) + place_cols(net, p as int + 1));
        }
        p += 1;
    }
    s.append("Transitions\n");
    proof {
        assert(s@ =~= header_line(net));
    }
    s
}

/// One row of the marking table as a `String`.
#[verifier::loop_isolation(false)]
fn row_text(net: &PetriNet, row: &Row) -> (s: String)
    requires
        forall|i: int| 0 <= i < net.n_places() ==> (#[trigger] net.places@[i]).0 == i,
        row.1.wf(),
    ensures
        s@ == row_line(net, *row),
{
    let mut s = m_col(row.0);
    let ghost row_start = pad_to(m_text(row.0.0 as nat), 7);
    let mut p: usize = 0;
    proof {
        assert(s@ =~= row_start + count_cols(row.1, 0));
    }
    while p < net.places.len()
        invariant
            p <= net.places@.len(),
            s@ == row_start + count_cols(row.1, p as int),
        decreases net.places@.len() - p,
    {
        let tokens = row.1.get(&net.places[p]);
        let col = count_col(tokens.0);
        s.append(col.as_str());
        proof {
            assert(net.places@[p as int].0 == p);
            assert(s@ =~= row_start + count_cols(row.1, p as int + 1));
        }
        p += 1;
    }
    let mut cont_strings: Vec<String> = Vec::new();
    let mut k: usize = 0;
    let ghost g = |c: Continuation| cont_text(c);
    while k < row.2.len()
        invariant
            k <= row.2@.len(),
            cont_strings@.map_values(|x: String| x@) =~= row.2@.take(k as int).map_values(g),
        decreases row.2@.len() - k,
    {
        let text = row.2[k].to_text();
        cont_strings.push(text);
        proof {
            assert(row.2@.take(k as int + 1) =~= row.2@.take(k as int).push(row.2@[k as int]));
            assert(row.2@.take(k as int + 1).map_values(g) =~= row.2@.take(k as int).map_values(
                g,
            ).push(g(row.2@[k as int])));
        }
        k += 1;
    }
    proof {
        assert(row.2@.take(row.2@.len() as int) =~= row.2@);
    }
    let joined = join_strings(&cont_strings, ", ");
    s.append(joined.as_str());
    s.append("\n");
    proof {
        assert(s@ =~= row_line(net, *row));
    }
    s
}

/// The interpretation lines as a `String`.
#[verifier::loop_isolation(false)]
fn interp_lines_text(dl: &Vec<(MarkingId, DeadlockInterpretation)>) -> (s: String)
    ensures
        s@ == interp_lines(dl@, dl@.len() as int),
{
    let mut s = String::new();
    let mut d: usize = 0;
    proof {
        assert(s@ =~= interp_lines(dl@, 0));
    }
    while d < dl.len()
        invariant
            d <= dl@.len(),
            s@ == interp_lines(dl@, d as int),
        decreases dl@.len() - d,
    {
        let entry = &dl[d];
        let idtext = entry.0.to_text();
        s.append(idtext.as_str());
        s.append(": ");
        match entry.1 {
            DeadlockInterpretation::Final => s.append("final"),
            DeadlockInterpretation::Deadlock => s.append("deadlock"),
        }
        s.append("\n");
        proof {
            assert(s@ =~= interp_lines(dl@, d as int + 1));
        }
        d += 1;
    }
    s
}

/// The liveness summary (all five classes) as a `String`.
fn liveness_summary(liveness: &Liveness) -> (s: String)
    ensures
        s@ == liveness_text(liveness@),
{
    let mut s = class_string(liveness, Live::L0);
    s.append("; ");
    let c1 = class_string(liveness, Live::L1);
    s.append(c1.as_str());
    s.append("; ");
    let c2 = class_string(liveness, Live::L2);
    s.append(c2.as_str());
    s.append("; ");
    let c3 = class_string(liveness, Live::L3);
    s.append(c3.as_str());
    s.append("; ");
    let c4 = class_string(liveness, Live::L4);
    s.append(c4.as_str());
    proof {
        let l = liveness@;
        let c_0 = class_text(l, Live::L0);
        let c_1 = class_text(l, Live::L1);
        let c_2 = class_text(l, Live::L2);
        let c_3 = class_text(l, Live::L3);
        let c_4 = class_text(l, Live::L4);
        let s5 = seq![c_0, c_1, c_2, c_3, c_4];
        let s4 = seq![c_0, c_1, c_2, c_3];
        let s3 = seq![c_0, c_1, c_2];
        let s2 = seq![c_0, c_1];
        let s1 = seq![c_0];
        assert(s5.drop_last() =~= s4);
        assert(s4.drop_last() =~= s3);
        assert(s3.drop_last() =~= s2);
        assert(s2.drop_last() =~= s1);
        assert(join_texts(s1, "; "@) == c_0);
        assert(join_texts(s2, "; "@) == c_0 + "; "@ + c_1);
        assert(join_texts(s3, "; "@) == join_texts(s2, "; "@) + "; "@ + c_2);
        assert(join_texts(s4, "; "@) == join_texts(s3, "; "@) + "; "@ + c_3);
        assert(join_texts(s5, "; "@) == join_texts(s4, "; "@) + "; "@ + c_4);
        assert(s@ =~= join_texts(s5, "; "@));
    }
    s
}

impl<'net> ReachabilityAnalysis<'net> {
    /// Render the completed analysis as the report table: the transition
    /// listing, the marking table with one fixed-width column per place,
    /// the interpretation of every deadlock, and the summary lines.
    #[verifier::loop_isolation(false)]
    #[verifier::rlimit(100)]
    pub fn to_text(&self) -> (s: String)
        requires
            forall|i: int| 0 <= i < self.rows@.len() ==> (#[trigger] self.rows@[i]).1.wf(),
            forall|i: int|
                0 <= i < self.petri_net.n_transitions() ==> (#[trigger] self.petri_net.transitions@[
                    i
                ]).id.0 == i,
            forall|i: int|
                0 <= i < self.petri_net.n_places() ==> (#[trigger] self.petri_net.places@[i]).0
                    == i,
        ensures
            s@ == report_text(self),
    {
        let net = self.petri_net;
        let mut s = transitions_text(net);
        s.append("\n");
        let header = header_text(net);
        s.append(header.as_str());
        let ghost after_header = transitions_lines(net, net.n_transitions()) + "\n"@ + header_line(
            net,
        );
        let mut i: usize = 0;
        proof {
            assert(s@ =~= after_header + rows_lines(net, self.rows@, 0));
        }
        while i < self.rows.len()
            invariant
                i <= self.rows@.len(),
                s@ == after_header + rows_lines(net, self.rows@, i as int),
            decreases self.rows@.len() - i,
        {
            let line = row_text(net, &self.rows[i]);
            s.append(line.as_str());
            proof {
                assert(s@ =~= after_header + rows_lines(net, self.rows@, i as int + 1));
            }
            i += 1;
        }
        s.append("\n");
        s.append("Interpretation\n");
        let dl = self.deadlocks();
        let interp = interp_lines_text(&dl);
        s.append(interp.as_str());
        proof {
            assert(s@ =~= front_text(self));
        }
        let tail = self.summary_string();
        s.append(tail.as_str());
        s
    }

    /// The summary lines of the report as a `String`.
    #[verifier::rlimit(100)]
    fn summary_string(&self) -> (s: String)
        ensures
            s@ == summary_text(self),
    {
        let mut s = String::from_str("Boundedness: ");
        let b = self.boundedness();
        match b {
            Bound::Bounded(tk) => {
                let n = dec_string(tk.0);
                s.append(n.as_str());
                s.append("-Bounded");
            },
            Bound::Unbounded => s.append("Unbounded"),
        }
        s.append("\n");
        s.append("Safe: ");
        s.append(if self.is_safe() {
            "true"
        } else {
            "false"
        });
        s.append("\n");
        s.append("Live: ");
        s.append(if self.is_live() {
            "true"
        } else {
            "false"
        });
        s.append("\n");
        s.append("Quasi-Live: ");
        s.append(if self.is_quasi_live() {
            "true"
        } else {
            "false"
        });
        s.append("\n");
        s.append("Liveness: ");
        let lsum = liveness_summary(&self.liveness);
        s.append(lsum.as_str());
        s.append("\n");
        s.append("Loops: ");
        s.append("\n");
        s.append("Sound: ");
        s.append(if self.is_sound() {
            "true"
        } else {
            "false"
        });
        s.append("\n");
        proof {
            assert(s@ =~= summary_text(self));
        }
        s
    }
}

} // verus!
