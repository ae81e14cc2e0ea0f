//! The record store: a comma-delimited text table with the fixed header row
//! `ip_v4,timestamp` and one row per observation, newest appended last.
//!
//! Reading parses the whole text and answers "latest observation" by the
//! maximum timestamp, ties broken in favour of the most recently appended
//! row. Writing re-serializes the full history plus the new row; parsing a
//! serialized store gives back exactly its rows.

use vstd::prelude::*;
use crate::text::{
    first_byte, find_byte, bytes_eq, push_all, lex_le, lex_le_bytes, line_split, split_lines,
    lemma_first_byte_is, lemma_line_split_append, lemma_lex_refl, lemma_lex_total,
    lemma_lex_trans, NL, COMMA,
};
use crate::addr::{valid_ipv4, check_ipv4, lemma_ipv4_no_separator};
use crate::timestamp::{valid_ts, check_ts, lemma_ts_no_separator};

verus! {

/// One recorded observation: a dotted-quad address and a timestamp, both
/// held as byte strings of the store's text format.
#[derive(Debug)]
pub struct Observation {
    pub addr: Vec<u8>,
    pub ts: Vec<u8>,
}

/// The mathematical value of an observation.
pub struct ObsView {
    pub addr: Seq<u8>,
    pub ts: Seq<u8>,
}

impl View for Observation {
    type V = ObsView;

    open spec fn view(&self) -> ObsView {
        ObsView { addr: self.addr@, ts: self.ts@ }
    }
}

impl Observation {
    /// An exact copy.
    pub fn duplicate(&self) -> (r: Observation)
        ensures
            r@ == self@,
    {
        Observation {
            addr: vstd::slice::slice_to_vec(self.addr.as_slice()),
            ts: vstd::slice::slice_to_vec(self.ts.as_slice()),
        }
    }
}

/// A well-formed observation: both fields follow their grammars.
pub open spec fn valid_obs(o: ObsView) -> bool {
    valid_ipv4(o.addr) && valid_ts(o.ts)
}

pub open spec fn all_valid(rows: Seq<ObsView>) -> bool {
    forall|i: int| 0 <= i < rows.len() ==> valid_obs(#[trigger] rows[i])
}

/// The views of a vector of observations.
pub open spec fn views_of(rows: Seq<Observation>) -> Seq<ObsView> {
    rows.map_values(|o: Observation| o@)
}

/// How the store can fail, short of process-level I/O errors.
#[derive(Clone, Copy, PartialEq, Eq, Structural, Debug)]
pub enum StoreError {
    /// The store's text could not be obtained.
    Unreadable,
    /// The text does not follow the store's format.
    Corrupt,
    /// The store's new text could not be persisted.
    Unwritable,
}

/// The header row `ip_v4,timestamp`.
pub open spec fn header() -> Seq<u8> {
    seq![105u8, 112, 95, 118, 52, 44, 116, 105, 109, 101, 115, 116, 97, 109, 112]
}

pub proof fn lemma_header_no_nl()
    ensures
        forall|j: int| 0 <= j < header().len() ==> header()[j] != NL,
{
    assert forall|j: int| 0 <= j < header().len() implies header()[j] != NL by {
        let h = header();
        assert(h[0] != NL && h[1] != NL && h[2] != NL && h[3] != NL && h[4] != NL);
        assert(h[5] != NL && h[6] != NL && h[7] != NL && h[8] != NL && h[9] != NL);
        assert(h[10] != NL && h[11] != NL && h[12] != NL && h[13] != NL && h[14] != NL);
    }
}

/// The header row as bytes.
pub fn header_row() -> (r: Vec<u8>)
    ensures
        r@ == header(),
{
    let mut h: Vec<u8> = Vec::new();
    h.push(105);
    h.push(112);
    h.push(95);
    h.push(118);
    h.push(52);
    h.push(44);
    h.push(116);
    h.push(105);
    h.push(109);
    h.push(101);
    h.push(115);
    h.push(116);
    h.push(97);
    h.push(109);
    h.push(112);
    proof {
        assert(h@ =~= header());
    }
    h
}

/// One serialized data row, without its leading newline.
pub open spec fn row_line(o: ObsView) -> Seq<u8> {
    o.addr + seq![COMMA] + o.ts
}

/// Reading one data row: the bytes before the first comma must form an
/// address, the bytes after it a timestamp.
pub open spec fn parse_row(line: Seq<u8>) -> Option<ObsView> {
    let c = first_byte(line, COMMA);
    if c >= line.len() {
        None
    } else {
        let a = line.take(c as int);
        let t = line.skip(c as int + 1);
        if valid_ipv4(a) && valid_ts(t) {
            Some(ObsView { addr: a, ts: t })
        } else {
            None
        }
    }
}

/// Reading all data rows; any malformed row poisons the whole read.
pub open spec fn parse_rows(lines: Seq<Seq<u8>>) -> Option<Seq<ObsView>>
    decreases lines.len(),
{
    if lines.len() == 0 {
        Some(Seq::empty())
    } else {
        match parse_rows(lines.drop_last()) {
            None => None,
            Some(rs) => match parse_row(lines.last()) {
                None => None,
                Some(o) => Some(rs.push(o)),
            },
        }
    }
}

/// Reading a whole store text: the first line must be the header, the rest
/// are data rows.
pub open spec fn spec_parse(t: Seq<u8>) -> Option<Seq<ObsView>> {
    let lines = line_split(t);
    if lines[0] == header() {
        parse_rows(lines.skip(1))
    } else {
        None
    }
}

/// The store text that holds exactly `rows`, oldest first.
pub open spec fn spec_serialize(rows: Seq<ObsView>) -> Seq<u8>
    decreases rows.len(),
{
    if rows.len() == 0 {
        header()
    } else {
        spec_serialize(rows.drop_last()) + seq![NL] + row_line(rows.last())
    }
}

/// A malformed row makes the whole row read fail.
pub proof fn lemma_parse_rows_fail(lines: Seq<Seq<u8>>, k: int)
    requires
        0 <= k < lines.len(),
        parse_row(lines[k]) is None,
    ensures
        parse_rows(lines) is None,
    decreases lines.len(),
{
    if k == lines.len() - 1 {
    } else {
        lemma_parse_rows_fail(lines.drop_last(), k);
    }
}

/// Reads one data row.
fn parse_row_bytes(line: &[u8]) -> (r: Option<Observation>)
    ensures
        match r {
            Some(o) => parse_row(line@) == Some(o@),
            None => parse_row(line@) is None,
        },
{
    let c = find_byte(line, 0, COMMA);
    proof {
        lemma_first_byte_is(line@, COMMA, c as int);
    }
    if c == line.len() {
        return None;
    }
    let a = vstd::slice::slice_subrange(line, 0, c);
    let t = vstd::slice::slice_subrange(line, c + 1, line.len());
    proof {
        assert(a@ =~= line@.take(c as int));
        assert(t@ =~= line@.skip(c as int + 1));
    }
    if check_ipv4(a) && check_ts(t) {
        Some(
            Observation {
                addr: vstd::slice::slice_to_vec(a),
                ts: vstd::slice::slice_to_vec(t),
            },
        )
    } else {
        None
    }
}

/// Reads a whole store text into its rows, oldest first.
pub fn parse_store(text: &[u8]) -> (r: Result<Vec<Observation>, StoreError>)
    ensures
        match r {
            Ok(rows) => spec_parse(text@) == Some(views_of(rows@)),
            Err(e) => spec_parse(text@) is None && e == StoreError::Corrupt,
        },
{
    let lines = split_lines(text);
    let ghost all = line_split(text@);
    proof {
        assert(all.len() >= 1);
        assert(lines@.len() == all.len());
    }
    let h = header_row();
    if !bytes_eq(lines[0].as_slice(), h.as_slice()) {
        proof {
            assert(all[0] == lines@.map_values(|l: Vec<u8>| l@)[0]);
        }
        return Err(StoreError::Corrupt);
    }
    proof {
        assert(all[0] == lines@.map_values(|l: Vec<u8>| l@)[0]);
    }
    let mut rows: Vec<Observation> = Vec::new();
    let mut i: usize = 1;
    proof {
        assert(all.skip(1).take(0) =~= Seq::<Seq<u8>>::empty());
        assert(views_of(rows@) =~= Seq::<ObsView>::empty());
    }
    while i < lines.len()
        invariant
            1 <= i <= lines@.len(),
            all == line_split(text@),
            lines@.map_values(|l: Vec<u8>| l@) == all,
            all[0] == header(),
            parse_rows(all.skip(1).take(i - 1)) == Some(views_of(rows@)),
        decreases lines@.len() - i,
    {
        let ghost prev = rows@;
        match parse_row_bytes(lines[i].as_slice()) {
            None => {
                proof {
                    assert(all.skip(1)[i - 1] == all[i as int]);
                    assert(all[i as int] == lines@.map_values(|l: Vec<u8>| l@)[i as int]);
                    lemma_parse_rows_fail(all.skip(1), i - 1);
                    assert(line_split(text@)[0] == header());
                }
                return Err(StoreError::Corrupt);
            },
            Some(o) => {
                rows.push(o);
                proof {
                    let p = all.skip(1).take(i as int);
                    assert(p.drop_last() =~= all.skip(1).take(i - 1));
                    assert(p.last() == all.skip(1)[i - 1]);
                    assert(all.skip(1)[i - 1] == all[i as int]);
                    assert(all[i as int] == lines@.map_values(|l: Vec<u8>| l@)[i as int]);
                    assert(views_of(rows@) =~= views_of(prev).push(o@));
                }
            },
        }
        i = i + 1;
    }
    proof {
        assert(all.skip(1).take(i - 1) =~= all.skip(1));
    }
    Ok(rows)
}

/// Serializes `rows` into the store's text.
pub fn serialize_store(rows: &Vec<Observation>) -> (out: Vec<u8>)
    ensures
        out@ == spec_serialize(views_of(rows@)),
{
    let ghost all = views_of(rows@);
    let mut out = header_row();
    proof {
        assert(all.take(0) =~= Seq::<ObsView>::empty());
    }
    let mut i: usize = 0;
    while i < rows.len()
        invariant
            i <= rows@.len(),
            all == views_of(rows@),
            out@ == spec_serialize(all.take(i as int)),
        decreases rows@.len() - i,
    {
        out.push(NL);
        push_all(&mut out, rows[i].addr.as_slice());
        out.push(COMMA);
        push_all(&mut out, rows[i].ts.as_slice());
        proof {
            let p = all.take(i + 1);
            assert(p.drop_last() =~= all.take(i as int));
            assert(p.last() == all[i as int]);
            assert(all[i as int] == rows@.map_values(|o: Observation| o@)[i as int]);
            assert(out@ =~= spec_serialize(all.take(i as int)) + seq![NL] + row_line(
                all[i as int],
            ));
        }
        i = i + 1;
    }
    proof {
        assert(all.take(rows@.len() as int) =~= all);
    }
    out
}

/// The text of a store holding no observations: the bare header row. The
/// first run writes this once; re-initializing an existing store is the
/// caller's no-op, never a rewrite.
pub fn init_content() -> (r: Vec<u8>)
    ensures
        r@ == spec_serialize(Seq::<ObsView>::empty()),
{
    header_row()
}

/// Index of the latest row: the greatest timestamp, the most recently
/// appended row among equals.
pub open spec fn max_ts_idx(rows: Seq<ObsView>) -> int
    decreases rows.len(),
{
    if rows.len() <= 1 {
        0
    } else {
        let m = max_ts_idx(rows.drop_last());
        if lex_le(rows[m].ts, rows.last().ts) {
            rows.len() - 1
        } else {
            m
        }
    }
}

/// The latest observation of a store, or nothing when it holds none.
pub open spec fn spec_latest(rows: Seq<ObsView>) -> Option<ObsView> {
    if rows.len() == 0 {
        None
    } else {
        Some(rows[max_ts_idx(rows)])
    }
}

/// The latest row carries the maximum timestamp, and every later row
/// carries a strictly smaller one: among equal timestamps the most recently
/// appended row wins.
pub proof fn lemma_max_ts_idx(rows: Seq<ObsView>)
    requires
        rows.len() > 0,
    ensures
        0 <= max_ts_idx(rows) < rows.len(),
        forall|j: int|
            0 <= j < rows.len() ==> lex_le(#[trigger] rows[j].ts, rows[max_ts_idx(rows)].ts),
        forall|j: int|
            max_ts_idx(rows) < j < rows.len() ==> !lex_le(rows[max_ts_idx(rows)].ts, (#[trigger] rows[j]).ts),
    decreases rows.len(),
{
    let m = max_ts_idx(rows);
    if rows.len() == 1 {
        lemma_lex_refl(rows[0].ts);
    } else {
        let pre = rows.drop_last();
        let pm = max_ts_idx(pre);
        lemma_max_ts_idx(pre);
        assert(forall|j: int| 0 <= j < pre.len() ==> pre[j] == rows[j]);
        if lex_le(rows[pm].ts, rows.last().ts) {
            assert(m == rows.len() - 1);
            assert forall|j: int| 0 <= j < rows.len() implies lex_le(
                #[trigger] rows[j].ts,
                rows[m].ts,
            ) by {
                if j < rows.len() - 1 {
                    lemma_lex_trans(rows[j].ts, rows[pm].ts, rows.last().ts);
                } else {
                    lemma_lex_refl(rows[j].ts);
                }
            }
        } else {
            assert(m == pm);
            lemma_lex_total(rows[pm].ts, rows.last().ts);
            assert forall|j: int| 0 <= j < rows.len() implies lex_le(
                #[trigger] rows[j].ts,
                rows[m].ts,
            ) by {
                if j == rows.len() - 1 {
                    assert(lex_le(rows.last().ts, rows[pm].ts));
                }
            }
        }
    }
}

/// The latest observation, or `None` on an empty store; a pure function of
/// the rows, so two reads without an intervening append agree.
pub fn latest(rows: &Vec<Observation>) -> (r: Option<Observation>)
    ensures
        match r {
            None => rows@.len() == 0 && spec_latest(views_of(rows@)) is None,
            Some(o) => spec_latest(views_of(rows@)) == Some(o@),
        },
{
    let ghost all = views_of(rows@);
    if rows.len() == 0 {
        return None;
    }
    let mut best: usize = 0;
    let mut i: usize = 1;
    proof {
        assert(all.take(1).len() == 1);
        assert(max_ts_idx(all.take(1)) == 0);
    }
    while i < rows.len()
        invariant
            1 <= i <= rows@.len(),
            best < i,
            all == views_of(rows@),
            best == max_ts_idx(all.take(i as int)),
        decreases rows@.len() - i,
    {
        proof {
            let p = all.take(i + 1);
            assert(p.drop_last() =~= all.take(i as int));
            assert(p.last() == all[i as int]);
            assert(forall|j: int| 0 <= j < i ==> all.take(i as int)[j] == p[j]);
            assert(all[best as int] == rows@.map_values(|o: Observation| o@)[best as int]);
            assert(all[i as int] == rows@.map_values(|o: Observation| o@)[i as int]);
        }
        if lex_le_bytes(rows[best].ts.as_slice(), rows[i].ts.as_slice()) {
            best = i;
        }
        i = i + 1;
    }
    proof {
        assert(all.take(rows@.len() as int) =~= all);
    }
    Some(rows[best].duplicate())
}

/// A serialized row has no newline, and reads back as itself.
pub proof fn lemma_row_line(o: ObsView)
    requires
        valid_obs(o),
    ensures
        forall|j: int| 0 <= j < row_line(o).len() ==> row_line(o)[j] != NL,
        parse_row(row_line(o)) == Some(o),
{
    let line = row_line(o);
    lemma_ipv4_no_separator(o.addr);
    lemma_ts_no_separator(o.ts);
    assert forall|j: int| 0 <= j < line.len() implies line[j] != NL by {
        if j < o.addr.len() {
            assert(line[j] == o.addr[j]);
        } else if j == o.addr.len() {
        } else {
            assert(line[j] == o.ts[j - (o.addr.len() + 1)]);
        }
    }
    assert forall|j: int| 0 <= j < o.addr.len() implies line[j] != COMMA by {
        assert(line[j] == o.addr[j]);
    }
    assert(line[o.addr.len() as int] == COMMA);
    lemma_first_byte_is(line, COMMA, o.addr.len() as int);
    assert(line.take(o.addr.len() as int) =~= o.addr);
    assert(line.skip(o.addr.len() as int + 1) =~= o.ts);
    assert(parse_row(line) == Some(ObsView { addr: o.addr, ts: o.ts }));
}

/// The serialized store splits into the header line followed by one line
/// per row.
pub proof fn lemma_serialize_lines(rows: Seq<ObsView>)
    requires
        all_valid(rows),
    ensures
        line_split(spec_serialize(rows)) == seq![header()] + rows.map_values(
            |o: ObsView| row_line(o),
        ),
    decreases rows.len(),
{
    if rows.len() == 0 {
        lemma_header_no_nl();
        lemma_first_byte_is(header(), NL, header().len() as int);
        assert(line_split(header()) == seq![header()]);
        assert(seq![header()] + rows.map_values(|o: ObsView| row_line(o)) =~= seq![header()]);
    } else {
        let pre = rows.drop_last();
        assert(all_valid(pre));
        lemma_serialize_lines(pre);
        lemma_row_line(rows.last());
        lemma_line_split_append(spec_serialize(pre), row_line(rows.last()));
        assert(line_split(spec_serialize(rows)) == (seq![header()] + pre.map_values(
            |o: ObsView| row_line(o),
        )) + seq![row_line(rows.last())]);
        assert((seq![header()] + pre.map_values(|o: ObsView| row_line(o))) + seq![
            row_line(rows.last()),
        ] =~= seq![header()] + rows.map_values(|o: ObsView| row_line(o)));
    }
}

/// Row lines read back as their rows.
pub proof fn lemma_parse_rows_map(rows: Seq<ObsView>)
    requires
        all_valid(rows),
    ensures
        parse_rows(rows.map_values(|o: ObsView| row_line(o))) == Some(rows),
    decreases rows.len(),
{
    let lines = rows.map_values(|o: ObsView| row_line(o));
    if rows.len() == 0 {
        assert(rows =~= Seq::<ObsView>::empty());
    } else {
        let pre = rows.drop_last();
        assert(all_valid(pre));
        lemma_parse_rows_map(pre);
        lemma_row_line(rows.last());
        assert(lines.drop_last() =~= pre.map_values(|o: ObsView| row_line(o)));
        assert(lines.last() == row_line(rows.last()));
        assert(parse_rows(lines) == Some(pre.push(rows.last())));
        assert(pre.push(rows.last()) =~= rows);
    }
}

/// Round trip: a serialized store of well-formed rows parses back to
/// exactly those rows — the full history survives every rewrite, so either
/// complete text of an append (the old or the new) is a complete store.
pub proof fn lemma_parse_serialize(rows: Seq<ObsView>)
    requires
        all_valid(rows),
    ensures
        spec_parse(spec_serialize(rows)) == Some(rows),
{
    lemma_serialize_lines(rows);
    lemma_parse_rows_map(rows);
    let lines = line_split(spec_serialize(rows));
    assert(lines[0] == header());
    assert(lines.skip(1) =~= rows.map_values(|o: ObsView| row_line(o)));
}

/// Two reads of the latest observation from the same rows agree: the
/// answer is a function of the store contents alone.
pub proof fn lemma_latest_deterministic(rows: Seq<ObsView>, r1: Option<ObsView>, r2: Option<
    ObsView,
>)
    requires
        r1 == spec_latest(rows),
        r2 == spec_latest(rows),
    ensures
        r1 == r2,
{
}

/// Reads a store text and answers its latest observation: `Ok(None)`
/// exactly on a store with zero rows, an error exactly on malformed text.
pub fn latest_from_text(text: &[u8]) -> (r: Result<Option<Observation>, StoreError>)
    ensures
        match r {
            Ok(opt) => spec_parse(text@) matches Some(rows) && (match opt {
                None => rows.len() == 0,
                Some(o) => spec_latest(rows) == Some(o@),
            }),
            Err(e) => spec_parse(text@) is None && e == StoreError::Corrupt,
        },
{
    let rows = parse_store(text)?;
    Ok(latest(&rows))
}

/// Appends one observation: the new text holds the full old history plus
/// the new row. Fails exactly on malformed old text.
pub fn append_to_text(text: &[u8], obs: Observation) -> (r: Result<Vec<u8>, StoreError>)
    ensures
        match r {
            Ok(out) => spec_parse(text@) matches Some(rows) && out@ == spec_serialize(
                rows.push(obs@),
            ),
            Err(e) => spec_parse(text@) is None && e == StoreError::Corrupt,
        },
{
    let mut rows = parse_store(text)?;
    let ghost pre = views_of(rows@);
    rows.push(obs);
    proof {
        assert(views_of(rows@) =~= pre.push(obs@));
    }
    Ok(serialize_store(&rows))
}

} // verus!
