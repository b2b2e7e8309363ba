//! The snapshot format: one record per line, `<key text>:<value text>`,
//! each line ended by a newline, most recently used first.
use vstd::prelude::*;

use crate::model::record_views;
use crate::text::{string_from_chars, TextForm};

verus! {

/// Why a line of a snapshot could not be read.
#[derive(Debug, Clone, Copy, PartialEq, Eq, Structural)]
pub enum LineFault {
    /// The line holds no `:`.
    MissingSeparator,
    /// The text before the first `:` is not a key.
    InvalidKey,
    /// The text after the first `:` is not a value.
    InvalidValue,
}

/// A snapshot that could not be read: the first bad line (counted from 0)
/// and what is wrong with it.
#[derive(Debug, Clone, Copy, PartialEq, Eq, Structural)]
pub struct LoadError {
    pub line: usize,
    pub fault: LineFault,
}

/// The position of the first `c` in `t`, or the length of `t` if there is none.
pub open spec fn find_char(t: Seq<char>, c: char) -> nat
    decreases t.len(),
{
    if t.len() == 0 {
        0
    } else if t[0] == c {
        0
    } else {
        1 + find_char(t.skip(1), c)
    }
}

/// The line written for one record.
pub open spec fn line_text<K: TextForm, V: TextForm>(e: (K::V, V::V)) -> Seq<char> {
    K::text_of(e.0) + seq![':'] + V::text_of(e.1) + seq!['\n']
}

/// The snapshot of a sequence of records: their lines, in order.
pub open spec fn render<K: TextForm, V: TextForm>(s: Seq<(K::V, V::V)>) -> Seq<char>
    decreases s.len(),
{
    if s.len() == 0 {
        Seq::empty()
    } else {
        render::<K, V>(s.drop_last()) + line_text::<K, V>(s.last())
    }
}

/// The record on line `l`: it is split at its first `:`.
pub open spec fn parse_line<K: TextForm, V: TextForm>(l: Seq<char>) -> Result<
    (K::V, V::V),
    LineFault,
> {
    let c = find_char(l, ':');
    if c >= l.len() {
        Err(LineFault::MissingSeparator)
    } else {
        match K::parse_text(l.take(c as int)) {
            None => Err(LineFault::InvalidKey),
            Some(k) => match V::parse_text(l.skip(c + 1int)) {
                None => Err(LineFault::InvalidValue),
                Some(v) => Ok((k, v)),
            },
        }
    }
}

/// The records of snapshot text `t`, in file order; or the first bad line
/// and its fault. A last line without a newline counts as a line.
pub open spec fn parse_records<K: TextForm, V: TextForm>(t: Seq<char>) -> Result<
    Seq<(K::V, V::V)>,
    (nat, LineFault),
>
    decreases t.len(),
{
    if t.len() == 0 {
        Ok(Seq::empty())
    } else {
        let e = find_char(t, '\n');
        let rest = if e < t.len() {
            t.skip(e + 1int)
        } else {
            Seq::empty()
        };
        match parse_line::<K, V>(t.take(e as int)) {
            Err(f) => Err((0, f)),
            Ok(r) => match parse_records::<K, V>(rest) {
                Ok(rs) => Ok(seq![r] + rs),
                Err((n, f)) => Err((n + 1, f)),
            },
        }
    }
}

/// The outcome of reading a text whose first `lines` lines gave `done`
/// and whose remainder reads as `rest`.
pub open spec fn after_lines<A>(done: Seq<A>, lines: nat, rest: Result<Seq<A>, (nat, LineFault)>) -> Result<
    Seq<A>,
    (nat, LineFault),
> {
    match rest {
        Ok(rs) => Ok(done + rs),
        Err((n, f)) => Err((n + lines, f)),
    }
}

proof fn lemma_find_char(t: Seq<char>, c: char, i: int)
    requires
        0 <= i <= t.len(),
        forall|j: int| 0 <= j < i ==> t[j] != c,
        i == t.len() || t[i] == c,
    ensures
        find_char(t, c) == i,
    decreases i,
{
    if i > 0 {
        let u = t.skip(1);
        assert forall|j: int| 0 <= j < i - 1 implies u[j] != c by {
            assert(u[j] == t[j + 1]);
        }
        lemma_find_char(u, c, i - 1);
    }
}

/// The position of the first `c` in `t`, or its length.
fn find_in(t: &[char], c: char) -> (r: usize)
    ensures
        r == find_char(t@, c),
        r <= t@.len(),
{
    let mut i: usize = 0;
    while i < t.len()
        invariant
            i <= t@.len(),
            forall|j: int| 0 <= j < i ==> t@[j] != c,
        decreases t@.len() - i,
    {
        if t[i] == c {
            proof {
                lemma_find_char(t@, c, i as int);
            }
            return i;
        }
        i = i + 1;
    }
    proof {
        lemma_find_char(t@, c, i as int);
    }
    i
}

/// Reads one record from line `l`.
fn read_line<K: TextForm, V: TextForm>(l: &[char]) -> (r: Result<(K, V), LineFault>)
    ensures
        match parse_line::<K, V>(l@) {
            Ok(p) => r matches Ok(x) && (x.0@, x.1@) == p,
            Err(f) => r == Err::<(K, V), LineFault>(f),
        },
{
    let n = l.len();
    let c = find_in(l, ':');
    if c >= n {
        return Err(LineFault::MissingSeparator);
    }
    let key_text = &l[0..c];
    assert(key_text@ =~= l@.take(c as int));
    let key = match K::from_text(key_text) {
        Some(k) => k,
        None => {
            return Err(LineFault::InvalidKey);
        },
    };
    let value_text = &l[c + 1..n];
    assert(value_text@ =~= l@.skip(c + 1));
    match V::from_text(value_text) {
        Some(v) => Ok((key, v)),
        None => Err(LineFault::InvalidValue),
    }
}

/// Reads every record of snapshot text `t`, in file order. Nothing is
/// returned but the error when any line is bad.
pub fn read_records<K: TextForm, V: TextForm>(t: &[char]) -> (r: Result<Vec<(K, V)>, LoadError>)
    ensures
        match parse_records::<K, V>(t@) {
            Ok(recs) => r matches Ok(v) && record_views(v@) == recs,
            Err((n, f)) => r == Err::<Vec<(K, V)>, LoadError>(LoadError { line: n as usize, fault: f }),
        },
{
    let n = t.len();
    let mut out: Vec<(K, V)> = Vec::new();
    let mut pos: usize = 0;
    let mut line: usize = 0;
    assert(t@.skip(0) =~= t@);
    assert(record_views(out@) =~= Seq::<(K::V, V::V)>::empty());
    while pos < n
        invariant
            n == t@.len(),
            line <= pos <= n,
            parse_records::<K, V>(t@) == after_lines(
                record_views(out@),
                line as nat,
                parse_records::<K, V>(t@.skip(pos as int)),
            ),
        decreases n - pos,
    {
        let ghost old_done = record_views(out@);
        let ghost old_line = line;
        let rest = &t[pos..n];
        assert(rest@ =~= t@.skip(pos as int));
        let e = find_in(rest, '\n');
        let this_line = &rest[0..e];
        assert(this_line@ =~= rest@.take(e as int));
        match read_line::<K, V>(this_line) {
            Err(f) => {
                return Err(LoadError { line, fault: f });
            },
            Ok(kv) => {
                out.push(kv);
            },
        }
        let ghost old_pos = pos;
        if e < rest.len() {
            pos = pos + e + 1;
            assert(rest@.skip(e + 1) =~= t@.skip(pos as int));
        } else {
            pos = n;
            assert(t@.skip(pos as int) =~= Seq::<char>::empty());
        }
        line = line + 1;
        proof {
            let done = record_views(out@);
            assert(done =~= old_done.push(done.last()));
            let ghost rest_after = if e < rest@.len() {
                rest@.skip(e + 1int)
            } else {
                Seq::<char>::empty()
            };
            assert(rest_after == t@.skip(pos as int));
            match parse_records::<K, V>(rest_after) {
                Ok(rs) => {
                    assert(parse_records::<K, V>(rest@) == Ok::<Seq<(K::V, V::V)>, (nat, LineFault)>(seq![done.last()] + rs));
                    assert(done + rs =~= old_done + (seq![done.last()] + rs));
                },
                Err((m, f)) => {
                    assert(parse_records::<K, V>(rest@) == Err::<Seq<(K::V, V::V)>, (nat, LineFault)>((m + 1, f)));
                },
            }
        }
    }
    assert(t@.skip(pos as int) =~= Seq::<char>::empty());
    assert(record_views(out@) + Seq::<(K::V, V::V)>::empty() =~= record_views(out@));
    Ok(out)
}

/// The snapshot text of `entries`, in their order.
pub fn render_records<K: TextForm, V: TextForm>(entries: &[(K, V)]) -> (r: String)
    ensures
        r@ == render::<K, V>(record_views(entries@)),
{
    let mut out: Vec<char> = Vec::new();
    let mut i: usize = 0;
    while i < entries.len()
        invariant
            i <= entries@.len(),
            out@ == render::<K, V>(record_views(entries@.take(i as int))),
        decreases entries@.len() - i,
    {
        let e = &entries[i];
        let mut kt = e.0.to_text();
        let mut vt = e.1.to_text();
        out.append(&mut kt);
        out.push(':');
        out.append(&mut vt);
        out.push('\n');
        proof {
            let s = record_views(entries@.take(i + 1));
            assert(s.drop_last() =~= record_views(entries@.take(i as int)));
            assert(out@ =~= render::<K, V>(s));
        }
        i = i + 1;
    }
    assert(entries@.take(i as int) =~= entries@);
    string_from_chars(out.as_slice())
}

/// A record whose texts survive the line format: its key text holds no `:`
/// and no newline, its value text no newline.
pub open spec fn storable<K: TextForm, V: TextForm>(e: (K::V, V::V)) -> bool {
    &&& !K::text_of(e.0).contains(':')
    &&& !K::text_of(e.0).contains('\n')
    &&& !V::text_of(e.1).contains('\n')
}

proof fn lemma_render_first<K: TextForm, V: TextForm>(s: Seq<(K::V, V::V)>)
    requires
        s.len() > 0,
    ensures
        render::<K, V>(s) == line_text::<K, V>(s[0]) + render::<K, V>(s.skip(1)),
    decreases s.len(),
{
    if s.len() == 1 {
        assert(s.drop_last() =~= Seq::<(K::V, V::V)>::empty());
        assert(s.skip(1) =~= Seq::<(K::V, V::V)>::empty());
        assert(render::<K, V>(s) =~= line_text::<K, V>(s[0]) + render::<K, V>(s.skip(1)));
    } else {
        let d = s.drop_last();
        lemma_render_first::<K, V>(d);
        assert(s.skip(1).drop_last() =~= d.skip(1));
        assert(s.skip(1).last() == s.last());
        assert(render::<K, V>(s) =~= line_text::<K, V>(s[0]) + render::<K, V>(s.skip(1)));
    }
}

/// Reading a storable record's line followed by text `x` gives that record,
/// then what `x` gives, with line numbers of `x` shifted by one.
proof fn lemma_parse_after_line<K: TextForm, V: TextForm>(e0: (K::V, V::V), x: Seq<char>)
    requires
        storable::<K, V>(e0),
    ensures
        parse_records::<K, V>(line_text::<K, V>(e0) + x) == after_lines(
            seq![e0],
            1,
            parse_records::<K, V>(x),
        ),
{
    let kt = K::text_of(e0.0);
    let vt = V::text_of(e0.1);
    let l = kt + seq![':'] + vt;
    let t = line_text::<K, V>(e0) + x;
    assert(t =~= l + seq!['\n'] + x);
    assert forall|j: int| 0 <= j < l.len() implies t[j] != '\n' by {
        assert(t[j] == l[j]);
        if j < kt.len() {
            assert(l[j] == kt[j]);
        } else if j > kt.len() {
            assert(l[j] == vt[j - kt.len() - 1]);
        }
    }
    lemma_find_char(t, '\n', l.len() as int);
    assert(t.take(l.len() as int) =~= l);
    assert(t.skip(l.len() + 1int) =~= x);
    assert forall|j: int| 0 <= j < kt.len() implies l[j] != ':' by {
        assert(l[j] == kt[j]);
    }
    lemma_find_char(l, ':', kt.len() as int);
    assert(l.take(kt.len() as int) =~= kt);
    assert(l.skip(kt.len() + 1int) =~= vt);
    K::lemma_text_round_trip(e0.0);
    V::lemma_text_round_trip(e0.1);
    assert(parse_line::<K, V>(l) == Ok::<(K::V, V::V), LineFault>(e0));
}

/// Reading back the snapshot of storable records gives those records, in
/// the same order.
pub proof fn lemma_records_round_trip<K: TextForm, V: TextForm>(s: Seq<(K::V, V::V)>)
    requires
        forall|i: int| 0 <= i < s.len() ==> storable::<K, V>(#[trigger] s[i]),
    ensures
        parse_records::<K, V>(render::<K, V>(s)) == Ok::<Seq<(K::V, V::V)>, (nat, LineFault)>(s),
    decreases s.len(),
{
    if s.len() == 0 {
        assert(render::<K, V>(s) =~= Seq::<char>::empty());
        assert(s =~= Seq::<(K::V, V::V)>::empty());
    } else {
        let rest = s.skip(1);
        assert(storable::<K, V>(s[0]));
        assert forall|i: int| 0 <= i < rest.len() implies storable::<K, V>(#[trigger] rest[i]) by {
            assert(rest[i] == s[i + 1]);
        }
        lemma_records_round_trip::<K, V>(rest);
        lemma_render_first::<K, V>(s);
        lemma_parse_after_line::<K, V>(s[0], render::<K, V>(rest));
        assert(seq![s[0]] + rest =~= s);
    }
}

/// A line without `:` makes the whole snapshot unreadable: after any
/// number of good records, and whatever follows, reading fails at that
/// line and gives no records.
pub proof fn lemma_missing_separator_fails<K: TextForm, V: TextForm>(
    before: Seq<(K::V, V::V)>,
    bad: Seq<char>,
    after: Seq<char>,
)
    requires
        forall|i: int| 0 <= i < before.len() ==> storable::<K, V>(#[trigger] before[i]),
        !bad.contains(':'),
        !bad.contains('\n'),
    ensures
        parse_records::<K, V>(render::<K, V>(before) + bad + seq!['\n'] + after) == Err::<
            Seq<(K::V, V::V)>,
            (nat, LineFault),
        >((before.len(), LineFault::MissingSeparator)),
    decreases before.len(),
{
    let tail = bad + seq!['\n'] + after;
    if before.len() == 0 {
        let t = render::<K, V>(before) + bad + seq!['\n'] + after;
        assert(t =~= tail);
        assert forall|j: int| 0 <= j < bad.len() implies t[j] != '\n' by {
            assert(t[j] == bad[j]);
        }
        lemma_find_char(t, '\n', bad.len() as int);
        assert(t.take(bad.len() as int) =~= bad);
        assert forall|j: int| 0 <= j < bad.len() implies bad[j] != ':' by {}
        lemma_find_char(bad, ':', bad.len() as int);
    } else {
        let rest = before.skip(1);
        assert(storable::<K, V>(before[0]));
        assert forall|i: int| 0 <= i < rest.len() implies storable::<K, V>(#[trigger] rest[i]) by {
            assert(rest[i] == before[i + 1]);
        }
        lemma_missing_separator_fails::<K, V>(rest, bad, after);
        lemma_render_first::<K, V>(before);
        assert(render::<K, V>(before) + bad + seq!['\n'] + after =~= line_text::<K, V>(before[0]) + (
        render::<K, V>(rest) + bad + seq!['\n'] + after));
        lemma_parse_after_line::<K, V>(before[0], render::<K, V>(rest) + bad + seq!['\n'] + after);
    }
}

} // verus!
