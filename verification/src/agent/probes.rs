//! Probe results. The agent only runs the probes it is told to run and
//! returns raw measurements; it makes no scheduling or policy decisions.
//! The fields it reads out of the probe tools' text output are picked here;
//! turning them into numbers is the caller's.

use crate::agent::model::ProbeState;
use crate::text::{
    is_char, lines_of, lines_text, occurs, split_by, split_text, text_contains, trim, trim_text, words_of, words_text,
};
use vstd::prelude::*;

verus! {

/// Result of a gated throughput probe run. `tcp_mbps` is `None` when the
/// link was busy and the throughput probe was skipped.
#[derive(Debug, Clone, Copy)]
pub struct ThroughputProbe<D> {
    pub tcp_mbps: Option<D>,
    pub util_mbps: D,
}

/// Whether a throughput probe was skipped by the quiet gate.
pub fn is_busy<D>(tp: &ThroughputProbe<D>) -> (r: bool)
    ensures
        r == tp.tcp_mbps is None,
{
    tp.tcp_mbps.is_none()
}

/// The probe state a throughput report carries.
pub fn state_for<D>(tp: &ThroughputProbe<D>) -> (r: ProbeState)
    ensures
        r == (if tp.tcp_mbps is None { ProbeState::Busy } else { ProbeState::Quiet }),
{
    if is_busy(tp) {
        ProbeState::Busy
    } else {
        ProbeState::Quiet
    }
}

/// The first line for which `p` holds (`Iterator::find`).
pub open spec fn first_line(ls: Seq<Seq<char>>, p: spec_fn(Seq<char>) -> bool) -> Option<Seq<char>>
    decreases ls.len(),
{
    if ls.len() == 0 {
        None
    } else if p(ls[0]) {
        Some(ls[0])
    } else {
        first_line(ls.drop_first(), p)
    }
}

/// ping's loss summary line.
pub open spec fn loss_line() -> spec_fn(Seq<char>) -> bool {
    |l: Seq<char>| occurs(l, "packet loss"@)
}

/// ping's round-trip summary line.
pub open spec fn rtt_line() -> spec_fn(Seq<char>) -> bool {
    |l: Seq<char>| occurs(l, "rtt "@) || occurs(l, "round-trip"@)
}

/// The loss figure of ping's summary: in the third comma-separated field of
/// the first line that mentions "packet loss" (`0% packet loss`), the number
/// before the `%`, trimmed; none when there is no such line or it has fewer
/// fields.
pub open spec fn ping_loss_field(text: Seq<char>) -> Option<Seq<char>> {
    match first_line(lines_of(text), loss_line()) {
        Some(l) => {
            let f = split_by(l, is_char(','));
            if f.len() > 2 {
                Some(trim(split_by(f[2], is_char('%'))[0]))
            } else {
                None
            }
        },
        None => None,
    }
}

/// The minimum round-trip of ping's summary: on the first `rtt ` or
/// `round-trip` line, what follows the first `=` up to the next `/`,
/// trimmed; none when there is no such line or it has no `=`.
pub open spec fn ping_rtt_field(text: Seq<char>) -> Option<Seq<char>> {
    match first_line(lines_of(text), rtt_line()) {
        Some(l) => {
            let f = split_by(l, is_char('='));
            if f.len() > 1 {
                Some(trim(split_by(f[1], is_char('/'))[0]))
            } else {
                None
            }
        },
        None => None,
    }
}

/// A row of netperf's result table: at least five words.
pub open spec fn table_row() -> spec_fn(Seq<char>) -> bool {
    |l: Seq<char>| words_of(l).len() >= 5
}

/// The last word of a line.
pub open spec fn last_word() -> spec_fn(Seq<char>) -> Seq<char> {
    |l: Seq<char>| words_of(l).last()
}

/// The candidates for netperf's TCP_RR transaction rate: the last column of
/// every table row, in order.
pub open spec fn rr_fields(text: Seq<char>) -> Seq<Seq<char>> {
    lines_of(text).filter(table_row()).map_values(last_word())
}

/// Index of the first loss line (or, with `rtt`, round-trip line).
fn find_line(lines: &Vec<String>, rtt: bool) -> (r: Option<usize>)
    ensures
        ({
            let lv = lines@.map_values(|x: String| x@);
            let p = if rtt { rtt_line() } else { loss_line() };
            match r {
                Some(i) => i < lines@.len() && first_line(lv, p) == Some(lv[i as int]),
                None => first_line(lv, p) is None,
            }
        }),
{
    let ghost lv = lines@.map_values(|x: String| x@);
    let ghost p = if rtt { rtt_line() } else { loss_line() };
    let mut i: usize = 0;
    proof {
        assert(lv.skip(0) =~= lv);
    }
    while i < lines.len()
        invariant
            lv == lines@.map_values(|x: String| x@),
            p == (if rtt { rtt_line() } else { loss_line() }),
            i <= lines@.len(),
            first_line(lv, p) == first_line(lv.skip(i as int), p),
        decreases lines@.len() - i,
    {
        let l = lines[i].as_str();
        let hit = if rtt {
            text_contains(l, "rtt ") || text_contains(l, "round-trip")
        } else {
            text_contains(l, "packet loss")
        };
        proof {
            assert(lv.skip(i as int)[0] == lv[i as int]);
            assert(hit == p(lv[i as int]));
        }
        if hit {
            return Some(i);
        }
        proof {
            assert(lv.skip(i as int).drop_first() =~= lv.skip(i + 1));
        }
        i = i + 1;
    }
    proof {
        assert(lv.skip(i as int).len() == 0);
    }
    None
}

/// The loss field of ping output (see `ping_loss_field`).
pub fn ping_loss_text(text: &str) -> (r: Option<String>)
    ensures
        match ping_loss_field(text@) {
            Some(f) => r is Some && r.unwrap()@ == f,
            None => r is None,
        },
{
    let lines = lines_text(text);
    match find_line(&lines, false) {
        Some(i) => {
            let f = split_text(lines[i].as_str(), ',');
            if f.len() > 2 {
                proof {
                    assert(f@[2]@ == split_by(lines@[i as int]@, is_char(','))[2]);
                }
                let g = split_text(f[2].as_str(), '%');
                proof {
                    crate::text::lemma_split_by_len(f@[2]@, is_char('%'));
                    assert(g@[0]@ == split_by(f@[2]@, is_char('%'))[0]);
                }
                Some(trim_text(g[0].as_str()))
            } else {
                None
            }
        },
        None => None,
    }
}

/// The minimum round-trip field of ping output (see `ping_rtt_field`).
pub fn ping_rtt_text(text: &str) -> (r: Option<String>)
    ensures
        match ping_rtt_field(text@) {
            Some(f) => r is Some && r.unwrap()@ == f,
            None => r is None,
        },
{
    let lines = lines_text(text);
    match find_line(&lines, true) {
        Some(i) => {
            let f = split_text(lines[i].as_str(), '=');
            if f.len() > 1 {
                proof {
                    assert(f@[1]@ == split_by(lines@[i as int]@, is_char('='))[1]);
                }
                let g = split_text(f[1].as_str(), '/');
                proof {
                    crate::text::lemma_split_by_len(f@[1]@, is_char('/'));
                    assert(g@[0]@ == split_by(f@[1]@, is_char('/'))[0]);
                }
                Some(trim_text(g[0].as_str()))
            } else {
                None
            }
        },
        None => None,
    }
}

/// The transaction-rate candidates of netperf output (see `rr_fields`).
pub fn rr_rate_texts(text: &str) -> (r: Vec<String>)
    ensures
        r@.map_values(|x: String| x@) == rr_fields(text@),
{
    let lines = lines_text(text);
    let ghost lv = lines@.map_values(|x: String| x@);
    let mut out: Vec<String> = Vec::new();
    let mut i: usize = 0;
    proof {
        reveal(Seq::filter);
        assert(lv.take(0) =~= Seq::<Seq<char>>::empty());
        assert(out@.map_values(|x: String| x@) =~= lv.take(0).filter(table_row()).map_values(last_word()));
    }
    while i < lines.len()
        invariant
            lv == lines@.map_values(|x: String| x@),
            i <= lines@.len(),
            out@.map_values(|x: String| x@) == lv.take(i as int).filter(table_row()).map_values(last_word()),
        decreases lines@.len() - i,
    {
        let ghost prev = out@.map_values(|x: String| x@);
        let w = words_text(lines[i].as_str());
        proof {
            reveal(Seq::filter);
            assert(lv.take(i + 1).drop_last() =~= lv.take(i as int));
            assert(lv.take(i + 1).last() == lv[i as int]);
            assert(w@.map_values(|x: String| x@) == words_of(lv[i as int]));
        }
        if w.len() >= 5 {
            let last = w[w.len() - 1].clone();
            out.push(last);
            proof {
                assert(w@.map_values(|x: String| x@).last() == w@[w@.len() - 1]@);
                assert(out@.map_values(|x: String| x@) =~= prev.push(words_of(lv[i as int]).last()));
                assert(lv.take(i + 1).filter(table_row()) == lv.take(i as int).filter(table_row()).push(lv[i as int]));
                assert(lv.take(i + 1).filter(table_row()).map_values(last_word()) =~= lv.take(i as int).filter(table_row()).map_values(
                    last_word(),
                ).push(words_of(lv[i as int]).last()));
            }
        } else {
            proof {
                assert(lv.take(i + 1).filter(table_row()) == lv.take(i as int).filter(table_row()));
            }
        }
        i = i + 1;
    }
    proof {
        assert(lv.take(lines@.len() as int) =~= lv);
    }
    out
}

} // verus!
