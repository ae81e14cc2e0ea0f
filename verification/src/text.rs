//! Byte-string utilities: first occurrence of a byte, line splitting on
//! newlines, byte-wise lexicographic order, and small executable helpers.

use vstd::prelude::*;

verus! {

/// Line separator of the store's text format.
pub const NL: u8 = 10;

/// Column separator of the store's text format.
pub const COMMA: u8 = 44;

/// Index of the first occurrence of `b` in `t`, or `t.len()` when `b` does
/// not occur.
pub open spec fn first_byte(t: Seq<u8>, b: u8) -> nat
    decreases t.len(),
{
    if t.len() == 0 {
        0
    } else if t[0] == b {
        0
    } else {
        1 + first_byte(t.drop_first(), b)
    }
}

/// `first_byte` points at the first occurrence: everything before it differs
/// from `b`, and it lies within the sequence exactly when `b` occurs.
pub proof fn lemma_first_byte(t: Seq<u8>, b: u8)
    ensures
        first_byte(t, b) <= t.len(),
        first_byte(t, b) < t.len() ==> t[first_byte(t, b) as int] == b,
        forall|j: int| 0 <= j < first_byte(t, b) ==> t[j] != b,
    decreases t.len(),
{
    if t.len() == 0 {
    } else if t[0] == b {
    } else {
        let rest = t.drop_first();
        lemma_first_byte(rest, b);
        assert forall|j: int| 0 <= j < first_byte(t, b) implies t[j] != b by {
            if j > 0 {
                assert(rest[j - 1] == t[j]);
            }
        }
        if first_byte(t, b) < t.len() {
            assert(rest[first_byte(rest, b) as int] == b);
            assert(t[first_byte(t, b) as int] == rest[first_byte(t, b) - 1]);
        }
    }
}

/// Any index with the first-occurrence properties equals `first_byte`.
pub proof fn lemma_first_byte_is(t: Seq<u8>, b: u8, i: int)
    requires
        0 <= i <= t.len(),
        i < t.len() ==> t[i] == b,
        forall|j: int| 0 <= j < i ==> t[j] != b,
    ensures
        first_byte(t, b) == i,
{
    lemma_first_byte(t, b);
    let f = first_byte(t, b) as int;
    if f < i {
        assert(t[f] != b);
    }
    if i < f {
        assert(t[i] != b);
    }
}

/// First index at or after `from` where `t` holds `b`, or `t.len()`.
pub fn find_byte(t: &[u8], from: usize, b: u8) -> (r: usize)
    requires
        from <= t@.len(),
    ensures
        from <= r <= t@.len(),
        r < t@.len() ==> t@[r as int] == b,
        forall|j: int| from <= j < r ==> t@[j] != b,
{
    let mut i = from;
    while i < t.len()
        invariant
            from <= i <= t@.len(),
            forall|j: int| from <= j < i ==> t@[j] != b,
        decreases t@.len() - i,
    {
        if t[i] == b {
            return i;
        }
        i = i + 1;
    }
    i
}

/// Byte-string equality.
pub fn bytes_eq(a: &[u8], b: &[u8]) -> (r: bool)
    ensures
        r == (a@ == b@),
{
    if a.len() != b.len() {
        return false;
    }
    let mut i: usize = 0;
    while i < a.len()
        invariant
            a@.len() == b@.len(),
            i <= a@.len(),
            forall|j: int| 0 <= j < i ==> a@[j] == b@[j],
        decreases a@.len() - i,
    {
        if a[i] != b[i] {
            assert(a@[i as int] != b@[i as int]);
            return false;
        }
        i = i + 1;
    }
    proof {
        assert(a@ =~= b@);
    }
    true
}

/// Appends a copy of `src` to `dst`.
pub fn push_all(dst: &mut Vec<u8>, src: &[u8])
    ensures
        final(dst)@ == old(dst)@ + src@,
{
    let mut tail = vstd::slice::slice_to_vec(src);
    dst.append(&mut tail);
}

/// Byte-wise lexicographic order: `a` at or before `b`.
pub open spec fn lex_le(a: Seq<u8>, b: Seq<u8>) -> bool
    decreases a.len(),
{
    if a.len() == 0 {
        true
    } else if b.len() == 0 {
        false
    } else if a[0] < b[0] {
        true
    } else if a[0] > b[0] {
        false
    } else {
        lex_le(a.drop_first(), b.drop_first())
    }
}

pub proof fn lemma_lex_refl(a: Seq<u8>)
    ensures
        lex_le(a, a),
    decreases a.len(),
{
    if a.len() > 0 {
        lemma_lex_refl(a.drop_first());
    }
}

pub proof fn lemma_lex_total(a: Seq<u8>, b: Seq<u8>)
    ensures
        lex_le(a, b) || lex_le(b, a),
    decreases a.len(),
{
    if a.len() == 0 {
    } else if b.len() == 0 {
    } else if a[0] == b[0] {
        lemma_lex_total(a.drop_first(), b.drop_first());
    }
}

pub proof fn lemma_lex_trans(a: Seq<u8>, b: Seq<u8>, c: Seq<u8>)
    requires
        lex_le(a, b),
        lex_le(b, c),
    ensures
        lex_le(a, c),
    decreases a.len(),
{
    if a.len() == 0 {
    } else if b.len() == 0 {
    } else if c.len() == 0 {
    } else if a[0] == b[0] && b[0] == c[0] {
        lemma_lex_trans(a.drop_first(), b.drop_first(), c.drop_first());
    }
}

/// With an equal prefix of length `i`, the order is decided past it.
pub proof fn lemma_lex_skip(a: Seq<u8>, b: Seq<u8>, i: int)
    requires
        0 <= i <= a.len(),
        i <= b.len(),
        forall|j: int| 0 <= j < i ==> a[j] == b[j],
    ensures
        lex_le(a, b) == lex_le(a.skip(i), b.skip(i)),
    decreases i,
{
    if i > 0 {
        lemma_lex_skip(a.drop_first(), b.drop_first(), i - 1);
        assert forall|j: int| 0 <= j < i - 1 implies a.drop_first()[j] == b.drop_first()[j] by {
            assert(a.drop_first()[j] == a[j + 1]);
        }
        assert(a.drop_first().skip(i - 1) =~= a.skip(i));
        assert(b.drop_first().skip(i - 1) =~= b.skip(i));
    } else {
        assert(a.skip(0) =~= a);
        assert(b.skip(0) =~= b);
    }
}

/// Executable lexicographic comparison.
pub fn lex_le_bytes(a: &[u8], b: &[u8]) -> (r: bool)
    ensures
        r == lex_le(a@, b@),
{
    let n = if a.len() <= b.len() {
        a.len()
    } else {
        b.len()
    };
    let mut i: usize = 0;
    while i < n
        invariant
            i <= n,
            n <= a@.len(),
            n <= b@.len(),
            n == a@.len() || n == b@.len(),
            forall|j: int| 0 <= j < i ==> a@[j] == b@[j],
        decreases n - i,
    {
        if a[i] < b[i] {
            proof {
                lemma_lex_skip(a@, b@, i as int);
                assert(a@.skip(i as int)[0] == a@[i as int]);
                assert(b@.skip(i as int)[0] == b@[i as int]);
            }
            return true;
        }
        if a[i] > b[i] {
            proof {
                lemma_lex_skip(a@, b@, i as int);
                assert(a@.skip(i as int)[0] == a@[i as int]);
                assert(b@.skip(i as int)[0] == b@[i as int]);
            }
            return false;
        }
        i = i + 1;
    }
    proof {
        lemma_lex_skip(a@, b@, n as int);
        assert(a@.skip(n as int).len() == a@.len() - n);
        assert(b@.skip(n as int).len() == b@.len() - n);
    }
    a.len() <= b.len()
}

/// The lines of `t`, split on every newline byte; always at least one line.
pub open spec fn line_split(t: Seq<u8>) -> Seq<Seq<u8>>
    decreases t.len(),
{
    let k = first_byte(t, NL);
    if k >= t.len() {
        seq![t]
    } else {
        seq![t.take(k as int)] + line_split(t.skip(k as int + 1))
    }
}

/// Splitting after appending a newline and a newline-free line appends that
/// line to the split.
pub proof fn lemma_line_split_append(t: Seq<u8>, line: Seq<u8>)
    requires
        forall|j: int| 0 <= j < line.len() ==> line[j] != NL,
    ensures
        line_split(t + seq![NL] + line) == line_split(t) + seq![line],
    decreases t.len(),
{
    let w = t + seq![NL] + line;
    let k = first_byte(t, NL);
    lemma_first_byte(t, NL);
    if k >= t.len() {
        // no newline inside t: the first newline of w sits at t.len()
        assert forall|j: int| 0 <= j < t.len() implies w[j] != NL by {
            assert(w[j] == t[j]);
        }
        assert(w[t.len() as int] == NL);
        lemma_first_byte_is(w, NL, t.len() as int);
        assert(w.take(t.len() as int) =~= t);
        assert(w.skip(t.len() as int + 1) =~= line);
        lemma_first_byte_is(line, NL, line.len() as int);
        assert(line_split(line) == seq![line]);
        assert(line_split(w) == seq![w.take(t.len() as int)] + line_split(
            w.skip(t.len() as int + 1),
        ));
        assert(line_split(w) == seq![t] + seq![line]);
        assert(line_split(t) + seq![line] == seq![t] + seq![line]);
    } else {
        assert forall|j: int| 0 <= j < k implies w[j] != NL by {
            assert(w[j] == t[j]);
        }
        assert(w[k as int] == t[k as int]);
        lemma_first_byte_is(w, NL, k as int);
        assert(w.take(k as int) =~= t.take(k as int));
        assert(w.skip(k as int + 1) =~= t.skip(k as int + 1) + seq![NL] + line);
        lemma_line_split_append(t.skip(k as int + 1), line);
        assert(line_split(w) == seq![t.take(k as int)] + (line_split(t.skip(k as int + 1)) + seq![line]));
        assert(line_split(w) =~= (seq![t.take(k as int)] + line_split(t.skip(k as int + 1))) + seq![line]);
    }
}

/// Splits `t` into its lines.
pub fn split_lines(t: &[u8]) -> (r: Vec<Vec<u8>>)
    ensures
        r@.map_values(|l: Vec<u8>| l@) == line_split(t@),
{
    let mut out: Vec<Vec<u8>> = Vec::new();
    let mut start: usize = 0;
    proof {
        assert(t@.skip(0) =~= t@);
        assert(out@.map_values(|l: Vec<u8>| l@) =~= Seq::<Seq<u8>>::empty());
        assert(out@.map_values(|l: Vec<u8>| l@) + line_split(t@) =~= line_split(t@));
    }
    loop
        invariant
            start <= t@.len(),
            line_split(t@) == out@.map_values(|l: Vec<u8>| l@) + line_split(t@.skip(start as int)),
        decreases t@.len() - start,
    {
        let k = find_byte(t, start, NL);
        let ghost rest = t@.skip(start as int);
        proof {
            assert forall|j: int| 0 <= j < k - start implies rest[j] != NL by {
                assert(rest[j] == t@[start + j]);
            }
            if k < t.len() {
                assert(rest[k - start] == t@[k as int]);
            }
            lemma_first_byte_is(rest, NL, k - start);
        }
        let ghost prev = out@;
        if k == t.len() {
            let line = vstd::slice::slice_subrange(t, start, k);
            out.push(vstd::slice::slice_to_vec(line));
            proof {
                assert(rest =~= t@.subrange(start as int, k as int));
                assert(line_split(rest) == seq![rest]);
                assert(out@.map_values(|l: Vec<u8>| l@) =~= prev.map_values(|l: Vec<u8>| l@)
                    + seq![rest]);
            }
            return out;
        } else {
            let line = vstd::slice::slice_subrange(t, start, k);
            out.push(vstd::slice::slice_to_vec(line));
            proof {
                assert(rest.take(k - start) =~= t@.subrange(start as int, k as int));
                assert(rest.skip(k - start + 1) =~= t@.skip(k as int + 1));
                assert(line_split(rest) == seq![rest.take(k - start)] + line_split(
                    t@.skip(k as int + 1),
                ));
                assert(out@.map_values(|l: Vec<u8>| l@) =~= prev.map_values(|l: Vec<u8>| l@)
                    + seq![rest.take(k - start)]);
            }
            start = k + 1;
        }
    }
}

} // verus!
