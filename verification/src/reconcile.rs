//! One reconciliation cycle: compare the current address with the latest
//! recorded one, and decide what to persist and what to notify.
//!
//! The cycle writes before it notifies: the appended record is the source
//! of truth for "was this change already seen", so a failed notification
//! never makes a change be re-detected. Callers perform the actual file
//! replacement and notification; this module fixes every decision.

use vstd::prelude::*;
use crate::store::{
    Observation, ObsView, spec_parse, spec_latest, spec_serialize, max_ts_idx,
    views_of, parse_store, latest, serialize_store, lemma_max_ts_idx,
};
use crate::addr::{valid_ipv4, check_ipv4};
use crate::timestamp::{valid_ts, check_ts};
use crate::text::{
    bytes_eq, lex_le, lemma_lex_refl, lemma_lex_trans,
};

verus! {

/// What one cycle concluded from the comparison.
pub enum Decision {
    /// The store holds no observation yet: record, but notify nobody.
    First,
    /// The latest recorded address equals the current one: do nothing.
    NoChange,
    /// The address changed: record and notify, naming the previous address.
    Changed { previous: Vec<u8> },
}

/// How a cycle can fail before any store mutation.
#[derive(Clone, Copy, PartialEq, Eq, Structural, Debug)]
pub enum CycleError {
    /// The current address is not a well-formed dotted quad.
    InvalidAddress,
    /// The clock's rendering is not a well-formed timestamp.
    InvalidTimestamp,
    /// The store's text is malformed.
    CorruptStore,
}

/// Everything a cycle decided: the observation appended (if any), the full
/// new store text to persist (if any), and the previous address to name in
/// a notification (if one is owed).
pub struct CycleResult {
    pub appended: Option<Observation>,
    pub new_text: Option<Vec<u8>>,
    pub notify_previous: Option<Vec<u8>>,
}

/// Whether a store with rows `rows` must record the current address `cur`:
/// on an empty store, or on a latest address that differs.
pub open spec fn is_change(rows: Seq<ObsView>, cur: Seq<u8>) -> bool {
    match spec_latest(rows) {
        None => true,
        Some(l) => l.addr != cur,
    }
}

/// The comparison at the heart of a cycle.
pub fn decide(last: &Option<Observation>, current: &[u8]) -> (d: Decision)
    ensures
        last is None ==> d == Decision::First,
        last is Some && last->0@.addr == current@ ==> d == Decision::NoChange,
        last is Some && last->0@.addr != current@ ==> d is Changed && d->Changed_previous@
            == last->0@.addr,
{
    match last {
        None => Decision::First,
        Some(o) => {
            if bytes_eq(o.addr.as_slice(), current) {
                Decision::NoChange
            } else {
                Decision::Changed { previous: vstd::slice::slice_to_vec(o.addr.as_slice()) }
            }
        },
    }
}

/// No side effect was decided: nothing to append, persist, or notify.
pub open spec fn no_action(res: CycleResult) -> bool {
    res.appended is None && res.new_text is None && res.notify_previous is None
}

/// A record (and possibly a notification) was decided: `res` appends the
/// observation of `cur` at `ts`, persists the full history plus that row,
/// and names the previous address exactly when there was one.
pub open spec fn records(res: CycleResult, rows: Seq<ObsView>, cur: Seq<u8>, ts: Seq<u8>) -> bool {
    &&& res.appended is Some
    &&& res.appended->0@ == (ObsView { addr: cur, ts: ts })
    &&& res.new_text is Some
    &&& res.new_text->0@ == spec_serialize(rows.push((ObsView { addr: cur, ts: ts })))
    &&& (spec_latest(rows) is None ==> res.notify_previous is None)
    &&& (spec_latest(rows) is Some ==> res.notify_previous is Some && res.notify_previous->0@
        == spec_latest(rows)->0.addr)
}

/// One full cycle over a store text, a current address, and a clock
/// reading. Pure: the caller persists `new_text` and sends the
/// notification.
pub fn run_cycle(text: &[u8], current: &[u8], now: &[u8]) -> (r: Result<CycleResult, CycleError>)
    ensures
        (r == Err::<CycleResult, CycleError>(CycleError::InvalidAddress)) <==> !valid_ipv4(current@),
        valid_ipv4(current@) ==> ((r == Err::<CycleResult, CycleError>(CycleError::CorruptStore)) <==> spec_parse(text@)
            is None),
        (valid_ipv4(current@) && spec_parse(text@) is Some && !is_change(
            spec_parse(text@)->0,
            current@,
        )) ==> (r is Ok && no_action(r->Ok_0)),
        (valid_ipv4(current@) && spec_parse(text@) is Some && is_change(
            spec_parse(text@)->0,
            current@,
        ) && !valid_ts(now@)) ==> r == Err::<CycleResult, CycleError>(CycleError::InvalidTimestamp),
        (valid_ipv4(current@) && spec_parse(text@) is Some && is_change(
            spec_parse(text@)->0,
            current@,
        ) && valid_ts(now@)) ==> (r is Ok && records(r->Ok_0, spec_parse(text@)->0, current@, now@)),
{
    if !check_ipv4(current) {
        return Err(CycleError::InvalidAddress);
    }
    let rows = match parse_store(text) {
        Ok(rs) => rs,
        Err(_) => {
            return Err(CycleError::CorruptStore);
        },
    };
    let ghost pre = views_of(rows@);
    let last = latest(&rows);
    if let Some(o) = &last {
        if bytes_eq(o.addr.as_slice(), current) {
            return Ok(CycleResult { appended: None, new_text: None, notify_previous: None });
        }
    }
    if !check_ts(now) {
        return Err(CycleError::InvalidTimestamp);
    }
    let obs = Observation {
        addr: vstd::slice::slice_to_vec(current),
        ts: vstd::slice::slice_to_vec(now),
    };
    let mut new_rows = rows;
    new_rows.push(obs.duplicate());
    proof {
        assert(views_of(new_rows@) =~= pre.push(obs@));
    }
    let new_text = serialize_store(&new_rows);
    let notify_previous = match last {
        Some(o) => Some(o.addr),
        None => None,
    };
    Ok(
        CycleResult {
            appended: Some(obs),
            new_text: Some(new_text),
            notify_previous,
        },
    )
}

/// One cycle against the real clock: reads the current time, validates it,
/// and runs the cycle. What holds of the clock's bytes cannot be promised,
/// so the append-path contract speaks of whatever valid timestamp was read.
pub fn run_cycle_now(text: &[u8], current: &[u8]) -> (r: Result<CycleResult, CycleError>)
    ensures
        (r == Err::<CycleResult, CycleError>(CycleError::InvalidAddress)) <==> !valid_ipv4(current@),
        valid_ipv4(current@) ==> ((r == Err::<CycleResult, CycleError>(CycleError::CorruptStore)) <==> spec_parse(text@)
            is None),
        (valid_ipv4(current@) && spec_parse(text@) is Some && !is_change(
            spec_parse(text@)->0,
            current@,
        )) ==> (r is Ok && no_action(r->Ok_0)),
        (valid_ipv4(current@) && spec_parse(text@) is Some && is_change(
            spec_parse(text@)->0,
            current@,
        ) && r is Ok) ==> (r->Ok_0.appended is Some && valid_ts(r->Ok_0.appended->0@.ts)
            && records(r->Ok_0, spec_parse(text@)->0, current@, r->Ok_0.appended->0@.ts)),
        (valid_ipv4(current@) && spec_parse(text@) is Some && is_change(
            spec_parse(text@)->0,
            current@,
        ) && r is Err) ==> r == Err::<CycleResult, CycleError>(CycleError::InvalidTimestamp),
{
    let now = crate::clock::current_timestamp();
    run_cycle(text, current, now.as_slice())
}

/// The store transition of one successful cycle.
pub open spec fn run_once(rows: Seq<ObsView>, cur: ObsView) -> Seq<ObsView> {
    if is_change(rows, cur.addr) {
        rows.push(cur)
    } else {
        rows
    }
}

/// The store after feeding `inputs` to successive cycles, oldest first,
/// starting from an empty store.
pub open spec fn runs(inputs: Seq<ObsView>) -> Seq<ObsView>
    decreases inputs.len(),
{
    if inputs.len() == 0 {
        Seq::empty()
    } else {
        run_once(runs(inputs.drop_last()), inputs.last())
    }
}

/// The addresses of a row sequence, in order.
pub open spec fn addr_trace(rows: Seq<ObsView>) -> Seq<Seq<u8>> {
    rows.map_values(|o: ObsView| o.addr)
}

/// The subsequence of addresses that differ from their immediate
/// predecessor, keeping the very first.
pub open spec fn changes_only(addrs: Seq<Seq<u8>>) -> Seq<Seq<u8>>
    decreases addrs.len(),
{
    if addrs.len() == 0 {
        Seq::empty()
    } else if addrs.len() == 1 {
        addrs
    } else if addrs.last() == addrs[addrs.len() - 2] {
        changes_only(addrs.drop_last())
    } else {
        changes_only(addrs.drop_last()).push(addrs.last())
    }
}

/// Timestamps never decrease along the rows.
pub open spec fn ts_sorted(rows: Seq<ObsView>) -> bool {
    forall|i: int, j: int| 0 <= i < j < rows.len() ==> lex_le(rows[i].ts, rows[j].ts)
}

/// On nondecreasing timestamps the latest row is the last one appended.
pub proof fn lemma_latest_of_sorted(rows: Seq<ObsView>)
    requires
        rows.len() > 0,
        ts_sorted(rows),
    ensures
        spec_latest(rows) == Some(rows.last()),
{
    lemma_max_ts_idx(rows);
    let m = max_ts_idx(rows);
    if m < rows.len() - 1 {
        assert(lex_le(rows[m].ts, rows[rows.len() - 1].ts));
        assert(!lex_le(rows[m].ts, rows[rows.len() - 1].ts));
    }
}

/// When every address differs from its predecessor, nothing is dropped.
pub proof fn lemma_changes_only_distinct(addrs: Seq<Seq<u8>>)
    requires
        forall|i: int| 0 <= i < addrs.len() - 1 ==> #[trigger] addrs[i] != addrs[i + 1],
    ensures
        changes_only(addrs) == addrs,
    decreases addrs.len(),
{
    if addrs.len() == 0 {
        assert(changes_only(addrs) =~= addrs);
    } else if addrs.len() == 1 {
    } else {
        let pre = addrs.drop_last();
        assert forall|i: int| 0 <= i < pre.len() - 1 implies #[trigger] pre[i] != pre[i + 1] by {
            assert(pre[i] == addrs[i]);
            assert(pre[i + 1] == addrs[i + 1]);
        }
        lemma_changes_only_distinct(pre);
        assert(addrs[addrs.len() - 2] != addrs[addrs.len() - 1]);
        assert(changes_only(addrs) == pre.push(addrs.last()));
        assert(pre.push(addrs.last()) =~= addrs);
    }
}

/// The history law: feeding any run of observations with nondecreasing
/// timestamps to successive cycles leaves the store holding exactly the
/// addresses that differ from their immediate predecessor (plus the very
/// first), in feeding order.
pub proof fn lemma_store_history(inputs: Seq<ObsView>)
    requires
        ts_sorted(inputs),
    ensures
        addr_trace(runs(inputs)) == changes_only(addr_trace(inputs)),
        ts_sorted(runs(inputs)),
        inputs.len() > 0 ==> runs(inputs).len() > 0 && runs(inputs).last().addr
            == inputs.last().addr && lex_le(runs(inputs).last().ts, inputs.last().ts),
    decreases inputs.len(),
{
    if inputs.len() == 0 {
        assert(addr_trace(runs(inputs)) =~= Seq::<Seq<u8>>::empty());
        assert(addr_trace(inputs) =~= Seq::<Seq<u8>>::empty());
    } else {
        let pre_in = inputs.drop_last();
        let cur = inputs.last();
        assert(ts_sorted(pre_in)) by {
            assert(forall|i: int| 0 <= i < pre_in.len() ==> pre_in[i] == inputs[i]);
        }
        lemma_store_history(pre_in);
        let store = runs(pre_in);
        let out = runs(inputs);
        let t_in = addr_trace(inputs);
        assert(t_in.len() == inputs.len());
        assert(t_in.last() == cur.addr);
        assert(t_in.drop_last() =~= addr_trace(pre_in));
        if pre_in.len() == 0 {
            assert(store.len() == 0);
            assert(is_change(store, cur.addr));
            assert(out == store.push(cur));
            assert(out.len() == 1);
            assert(addr_trace(out) =~= seq![cur.addr]);
            assert(t_in =~= seq![cur.addr]);
            assert(changes_only(t_in) == t_in);
            assert(ts_sorted(out));
            lemma_lex_refl(cur.ts);
        } else {
            assert(store.len() > 0);
            lemma_latest_of_sorted(store);
            assert(spec_latest(store) == Some(store.last()));
            let prev_addr = pre_in.last().addr;
            assert(store.last().addr == prev_addr);
            assert(t_in[inputs.len() - 2] == inputs[inputs.len() - 2].addr);
            assert(inputs[inputs.len() - 2] == pre_in.last());
            assert(lex_le(pre_in.last().ts, cur.ts));
            lemma_lex_refl(cur.ts);
            if cur.addr == prev_addr {
                assert(!is_change(store, cur.addr));
                assert(out == store);
                assert(t_in.last() == t_in[inputs.len() - 2]);
                assert(changes_only(t_in) == changes_only(t_in.drop_last()));
                lemma_lex_trans(store.last().ts, pre_in.last().ts, cur.ts);
            } else {
                assert(is_change(store, cur.addr));
                assert(out == store.push(cur));
                assert(addr_trace(out) =~= addr_trace(store).push(cur.addr));
                assert(t_in.last() != t_in[inputs.len() - 2]);
                assert(changes_only(t_in) == changes_only(t_in.drop_last()).push(cur.addr));
                assert(addr_trace(out) == changes_only(t_in));
                assert forall|i: int, j: int| 0 <= i < j < out.len() implies lex_le(
                    out[i].ts,
                    out[j].ts,
                ) by {
                    if j < store.len() {
                        assert(out[i] == store[i]);
                        assert(out[j] == store[j]);
                    } else {
                        assert(out[j] == cur);
                        assert(out[i] == store[i]);
                        if i < store.len() - 1 {
                            assert(lex_le(store[i].ts, store.last().ts));
                        } else {
                            lemma_lex_refl(store[i].ts);
                        }
                        lemma_lex_trans(store[i].ts, store.last().ts, pre_in.last().ts);
                        lemma_lex_trans(store[i].ts, pre_in.last().ts, cur.ts);
                    }
                }
            }
        }
    }
}

/// The history law for runs of pairwise-distinct addresses: the store then
/// holds every fed address, in feeding order.
pub proof fn lemma_store_history_distinct(inputs: Seq<ObsView>)
    requires
        ts_sorted(inputs),
        forall|i: int|
            0 <= i < inputs.len() - 1 ==> (#[trigger] inputs[i]).addr != inputs[i + 1].addr,
    ensures
        addr_trace(runs(inputs)) == addr_trace(inputs),
{
    lemma_store_history(inputs);
    let trace = addr_trace(inputs);
    assert forall|i: int| 0 <= i < trace.len() - 1 implies #[trigger] trace[i] != trace[i + 1] by {
        assert(trace[i] == inputs[i].addr);
        assert(trace[i + 1] == inputs[i + 1].addr);
    }
    lemma_changes_only_distinct(trace);
}

} // verus!
