//! Tolerant extraction of cash and holdings from a brokerage export.
//!
//! The export is plain comma-delimited text.  Lines are examined
//! independently, top to bottom:
//! - a line whose first (trimmed) field is `Cash` and that has at least
//!   two fields sets the cash balance, when its second field parses;
//! - a line with more than ten fields whose first (trimmed) field is
//!   `Symbol` is the column header: the positions of the `Symbol` and
//!   `Market Value` columns are discovered by scanning it, and data-row
//!   mode begins;
//! - in data-row mode, any other line with more than ten fields is a
//!   data row, contributing one holding when both discovered columns are
//!   present, non-empty and the value parses;
//! - every other line is silently skipped.

use vstd::prelude::*;

use crate::dec::Dec;
use crate::dec::PARSE_MAX_UNITS;
use crate::dec::abs_int;
use crate::dec::first_index_of;
use crate::dec::fmt_exact_spec;
use crate::dec::is_digit;
use crate::dec::lemma_first_index_from;
use crate::dec::lemma_first_index_min;
use crate::dec::lemma_first_index_range;
use crate::dec::lemma_fmt_exact_chars;
use crate::dec::lemma_parse_fmt_exact_roundtrip;
use crate::dec::lemma_parse_units_bounds;
use crate::dec::parse_units;

verus! {

/// A single position: a fund symbol and its current market value.
#[derive(Debug)]
pub struct Holding {
    pub symbol: String,
    pub market_value: Dec,
}

impl View for Holding {
    type V = (Seq<char>, int);

    /// A holding is modelled as its symbol and its value in units.
    open spec fn view(&self) -> (Seq<char>, int) {
        (self.symbol@, self.market_value.units as int)
    }
}

/// The model of a holdings list: symbol and unit count per entry.
pub open spec fn holdings_view(hs: Seq<Holding>) -> Seq<(Seq<char>, int)> {
    hs.map_values(|h: Holding| h@)
}

/// The pieces of `s` between occurrences of `sep`; always one more
/// piece than there are separators, so the empty string yields one
/// empty piece.
pub open spec fn split_on(s: Seq<char>, sep: char) -> Seq<Seq<char>>
    decreases s.len(),
    via split_on_decreases
{
    let i = first_index_of(s, sep);
    if i == s.len() {
        seq![s]
    } else {
        seq![s.take(i)] + split_on(s.skip(i + 1), sep)
    }
}

#[via_fn]
proof fn split_on_decreases(s: Seq<char>, sep: char) {
    lemma_first_index_range(s, sep);
}

/// The view of a vector of strings as a sequence of character
/// sequences.
pub open spec fn strs_view(v: Seq<String>) -> Seq<Seq<char>> {
    v.map_values(|p: String| p@)
}

/// If the next separator after `p` is at `i`, the piece `[p, i)` splits
/// off the front.
proof fn lemma_split_on_found(s: Seq<char>, sep: char, p: int, i: int)
    requires
        0 <= p <= i < s.len(),
        forall|j: int| p <= j < i ==> s[j] != sep,
        s[i] == sep,
    ensures
        split_on(s.skip(p), sep) == seq![s.subrange(p, i)] + split_on(s.skip(i + 1), sep),
{
    let t = s.skip(p);
    assert(forall|j: int| 0 <= j < i - p ==> t[j] == s[p + j]);
    lemma_first_index_from(t, sep, i - p);
    assert(first_index_of(t, sep) == i - p);
    assert(t.take(i - p) =~= s.subrange(p, i));
    assert(t.skip(i - p + 1) =~= s.skip(i + 1));
}

/// If no separator occurs from `p` on, the rest is a single piece.
proof fn lemma_split_on_none(s: Seq<char>, sep: char, p: int)
    requires
        0 <= p <= s.len(),
        forall|j: int| p <= j < s.len() ==> s[j] != sep,
    ensures
        split_on(s.skip(p), sep) == seq![s.skip(p)],
{
    let t = s.skip(p);
    assert(forall|j: int| 0 <= j < t.len() ==> t[j] == s[p + j]);
    lemma_first_index_from(t, sep, t.len() as int);
}

/// Whether the character at position `i` is whitespace.
fn ws_at(s: &str, i: usize) -> (r: bool)
    requires
        i < s@.len(),
    ensures
        r == is_ws(s@[i as int]),
{
    let c = s.get_char(i);
    c == ' ' || c == '\t' || c == '\n' || c == '\r' || c == '\u{c}'
}

/// Character-for-character string equality.
pub fn str_eq(a: &str, b: &str) -> (r: bool)
    ensures
        r == (a@ == b@),
{
    let n = a.unicode_len();
    let m = b.unicode_len();
    if n != m {
        return false;
    }
    let mut i: usize = 0;
    while i < n
        invariant
            i <= n,
            n == a@.len(),
            n == b@.len(),
            forall|j: int| 0 <= j < i as int ==> a@[j] == b@[j],
        decreases n - i,
    {
        let ca = a.get_char(i);
        let cb = b.get_char(i);
        if ca != cb {
            return false;
        }
        i = i + 1;
    }
    proof {
        assert(a@ =~= b@);
    }
    true
}

/// Removes leading and trailing whitespace.
pub fn trim_str<'a>(s: &'a str) -> (r: &'a str)
    ensures
        r@ == trim_spec(s@),
{
    let n = s.unicode_len();
    let mut start: usize = 0;
    proof {
        assert(s@.skip(0) =~= s@);
    }
    while start < n && ws_at(s, start)
        invariant
            start <= n,
            n == s@.len(),
            trim_start_spec(s@) == trim_start_spec(s@.skip(start as int)),
        decreases n - start,
    {
        proof {
            assert(s@.skip(start as int)[0] == s@[start as int]);
            assert(s@.skip(start as int).drop_first() =~= s@.skip(start as int + 1));
        }
        start = start + 1;
    }
    proof {
        if start < n {
            assert(s@.skip(start as int)[0] == s@[start as int]);
        } else {
            assert(s@.skip(start as int) =~= Seq::<char>::empty());
        }
        assert(trim_start_spec(s@) == s@.skip(start as int));
        assert(s@.subrange(start as int, n as int) =~= s@.skip(start as int));
    }
    let mut end: usize = n;
    while end > start && ws_at(s, end - 1)
        invariant
            start <= end <= n,
            n == s@.len(),
            trim_start_spec(s@) == s@.skip(start as int),
            trim_end_spec(s@.skip(start as int)) == trim_end_spec(
                s@.subrange(start as int, end as int),
            ),
        decreases end,
    {
        proof {
            let t = s@.subrange(start as int, end as int);
            assert(t.last() == s@[end as int - 1]);
            assert(t.drop_last() =~= s@.subrange(start as int, end as int - 1));
        }
        end = end - 1;
    }
    proof {
        let t = s@.subrange(start as int, end as int);
        if end > start {
            assert(t.last() == s@[end as int - 1]);
        }
        assert(trim_spec(s@) == t);
    }
    s.substring_char(start, end)
}

/// Splits `s` at every occurrence of `sep`.
pub fn split_on_char(s: &str, sep: char) -> (r: Vec<String>)
    ensures
        strs_view(r@) == split_on(s@, sep),
{
    let n = s.unicode_len();
    let mut out: Vec<String> = Vec::new();
    let mut start: usize = 0;
    let mut i: usize = 0;
    proof {
        assert(s@.skip(0) =~= s@);
        assert(strs_view(out@) =~= Seq::<Seq<char>>::empty());
        assert(strs_view(out@) + split_on(s@, sep) =~= split_on(s@, sep));
    }
    while i < n
        invariant
            start as int <= i as int <= n as int,
            n == s@.len(),
            forall|j: int| start as int <= j < i as int ==> s@[j] != sep,
            split_on(s@, sep) == strs_view(out@) + split_on(s@.skip(start as int), sep),
        decreases n - i,
    {
        let c = s.get_char(i);
        if c == sep {
            let piece = s.substring_char(start, i);
            let owned = piece.to_owned();
            proof {
                lemma_split_on_found(s@, sep, start as int, i as int);
                assert(strs_view(out@.push(owned)) =~= strs_view(out@).push(owned@));
                assert(strs_view(out@).push(owned@) + split_on(s@.skip(i as int + 1), sep)
                    =~= strs_view(out@) + (seq![s@.subrange(start as int, i as int)] + split_on(
                    s@.skip(i as int + 1),
                    sep,
                )));
            }
            out.push(owned);
            start = i + 1;
        }
        i = i + 1;
    }
    let piece = s.substring_char(start, n);
    let owned = piece.to_owned();
    proof {
        lemma_split_on_none(s@, sep, start as int);
        assert(strs_view(out@.push(owned)) =~= strs_view(out@).push(owned@));
        assert(strs_view(out@).push(owned@) =~= strs_view(out@) + seq![s@.skip(start as int)]);
    }
    out.push(owned);
    out
}

/// Splits `text` into lines, one optional final line ending ignored.
pub fn split_lines(text: &str) -> (r: Vec<String>)
    ensures
        strs_view(r@) == lines_spec(text@),
{
    let n = text.unicode_len();
    if n == 0 {
        let r: Vec<String> = Vec::new();
        proof {
            assert(strs_view(r@) =~= Seq::<Seq<char>>::empty());
        }
        return r;
    }
    let mut v = split_on_char(text, '\n');
    if text.get_char(n - 1) == '\n' {
        proof {
            assert(strs_view(v@).len() == v@.len());
            assert(split_on(text@, '\n').len() >= 1);
        }
        let ghost pre = v@;
        v.pop();
        proof {
            assert(strs_view(v@) =~= strs_view(pre).drop_last());
        }
    }
    v
}

/// The lines of `text`, split at `\n`; one optional final line ending
/// is not counted as starting an extra empty line.
pub open spec fn lines_spec(text: Seq<char>) -> Seq<Seq<char>> {
    if text.len() == 0 {
        Seq::<Seq<char>>::empty()
    } else if text.last() == '\n' {
        split_on(text, '\n').drop_last()
    } else {
        split_on(text, '\n')
    }
}

/// ASCII whitespace, the set that field trimming removes.
pub open spec fn is_ws(c: char) -> bool {
    c == ' ' || c == '\t' || c == '\n' || c == '\r' || c == '\u{c}'
}

/// `s` without leading whitespace.
pub open spec fn trim_start_spec(s: Seq<char>) -> Seq<char>
    decreases s.len(),
{
    if s.len() > 0 && is_ws(s[0]) {
        trim_start_spec(s.drop_first())
    } else {
        s
    }
}

/// `s` without trailing whitespace.
pub open spec fn trim_end_spec(s: Seq<char>) -> Seq<char>
    decreases s.len(),
{
    if s.len() > 0 && is_ws(s.last()) {
        trim_end_spec(s.drop_last())
    } else {
        s
    }
}

/// `s` without leading and trailing whitespace.
pub open spec fn trim_spec(s: Seq<char>) -> Seq<char> {
    trim_end_spec(trim_start_spec(s))
}

/// The fields of one line.
pub open spec fn fields_of(line: Seq<char>) -> Seq<Seq<char>> {
    split_on(line, ',')
}

/// A line that sets the cash balance: first trimmed field `Cash`, at
/// least two fields.
pub open spec fn is_cash_line(fs: Seq<Seq<char>>) -> bool {
    fs.len() >= 2 && trim_spec(fs[0]) == "Cash"@
}

/// The column header row: more than ten fields, first trimmed field
/// `Symbol`.
pub open spec fn is_header_line(fs: Seq<Seq<char>>) -> bool {
    fs.len() > 10 && trim_spec(fs[0]) == "Symbol"@
}

/// The position of the last field of `fs` whose trimmed text is `name`,
/// or `prev` when no field matches.
pub open spec fn scan_col(fs: Seq<Seq<char>>, name: Seq<char>, prev: Option<int>) -> Option<int>
    decreases fs.len(),
{
    if fs.len() == 0 {
        prev
    } else if trim_spec(fs.last()) == name {
        Some(fs.len() - 1)
    } else {
        scan_col(fs.drop_last(), name, prev)
    }
}

/// The extractor's state after some prefix of the lines.
pub struct ExtractState {
    /// Cash balance in `10^-8` units; zero until a cash line is seen.
    pub cash: int,
    /// Whether a header row has been seen (data-row mode).
    pub in_data: bool,
    /// Discovered position of the `Symbol` column.
    pub sym_idx: Option<int>,
    /// Discovered position of the `Market Value` column.
    pub mv_idx: Option<int>,
    /// Extracted holdings, in data-row order.
    pub holdings: Seq<(Seq<char>, int)>,
}

/// The state before any line.
pub open spec fn init_state() -> ExtractState {
    ExtractState {
        cash: 0,
        in_data: false,
        sym_idx: None,
        mv_idx: None,
        holdings: Seq::<(Seq<char>, int)>::empty(),
    }
}

/// How one line, already split into fields, changes the extractor's
/// state.
pub open spec fn step_fields(st: ExtractState, fs: Seq<Seq<char>>) -> ExtractState {
    if is_cash_line(fs) {
        match parse_units(trim_spec(fs[1])) {
            Some(v) => ExtractState { cash: v, ..st },
            None => st,
        }
    } else if is_header_line(fs) {
        ExtractState {
            in_data: true,
            sym_idx: scan_col(fs, "Symbol"@, st.sym_idx),
            mv_idx: scan_col(fs, "Market Value"@, st.mv_idx),
            ..st
        }
    } else if st.in_data && fs.len() > 10 {
        match (st.sym_idx, st.mv_idx) {
            (Some(si), Some(mi)) => {
                if 0 <= si < fs.len() && 0 <= mi < fs.len() {
                    let sym = trim_spec(fs[si]);
                    let mvs = trim_spec(fs[mi]);
                    if sym.len() > 0 && mvs.len() > 0 {
                        match parse_units(mvs) {
                            Some(v) => ExtractState { holdings: st.holdings.push((sym, v)), ..st },
                            None => st,
                        }
                    } else {
                        st
                    }
                } else {
                    st
                }
            },
            _ => st,
        }
    } else {
        st
    }
}

/// How one line changes the extractor's state.
pub open spec fn step(st: ExtractState, line: Seq<char>) -> ExtractState {
    step_fields(st, fields_of(line))
}

/// The extractor's state after all of `lines`.
pub open spec fn extract_state(lines: Seq<Seq<char>>) -> ExtractState {
    lines.fold_left(init_state(), |st: ExtractState, l: Seq<char>| step(st, l))
}

/// What extraction yields on `text`: the whole-export specification.
pub open spec fn extract_spec(text: Seq<char>) -> ExtractState {
    extract_state(lines_spec(text))
}

/// The model of a discovered column position.
pub open spec fn opt_idx_view(o: Option<usize>) -> Option<int> {
    match o {
        Some(i) => Some(i as int),
        None => None,
    }
}

/// Extracts the cash balance and the holdings from the raw text of a
/// brokerage export, as [`extract_spec`] describes.  Malformed or
/// irrelevant lines are skipped; no input is an error.
#[verifier::loop_isolation(false)]
pub fn parse_csv(text: &str) -> (r: (Dec, Vec<Holding>))
    ensures
        r.0.units as int == extract_spec(text@).cash,
        holdings_view(r.1@) == extract_spec(text@).holdings,
        abs_int(r.0.units as int) < PARSE_MAX_UNITS as int,
        forall|i: int|
            0 <= i < r.1@.len() ==> abs_int((#[trigger] r.1@[i])@.1) < PARSE_MAX_UNITS as int,
{
    let lines = split_lines(text);
    let ghost lseq = strs_view(lines@);
    let mut cash = Dec::zero();
    let mut in_data = false;
    let mut sym_idx: Option<usize> = None;
    let mut mv_idx: Option<usize> = None;
    let mut holdings: Vec<Holding> = Vec::new();
    let mut k: usize = 0;
    proof {
        assert(lseq.take(0) =~= Seq::<Seq<char>>::empty());
        assert(holdings_view(holdings@) =~= Seq::<(Seq<char>, int)>::empty());
    }
    while k < lines.len()
        invariant
            k <= lines.len(),
            cash.units as int == extract_state(lseq.take(k as int)).cash,
            in_data == extract_state(lseq.take(k as int)).in_data,
            opt_idx_view(sym_idx) == extract_state(lseq.take(k as int)).sym_idx,
            opt_idx_view(mv_idx) == extract_state(lseq.take(k as int)).mv_idx,
            holdings_view(holdings@) == extract_state(lseq.take(k as int)).holdings,
            abs_int(cash.units as int) < PARSE_MAX_UNITS as int,
            forall|i: int|
                0 <= i < holdings@.len() ==> abs_int((#[trigger] holdings@[i])@.1)
                    < PARSE_MAX_UNITS as int,
        decreases lines.len() - k,
    {
        let ghost k0 = k as int;
        let ghost stk = extract_state(lseq.take(k0));
        let fields = split_on_char(lines[k].as_str(), ',');
        let ghost fs = fields_of(lseq[k0]);
        proof {
            assert(lines@[k0]@ == lseq[k0]);
            assert(strs_view(fields@) == fs);
            assert(fields@.len() == fs.len());
        }
        if fields.len() >= 2 && str_eq(trim_str(fields[0].as_str()), "Cash") {
            proof {
                assert(fields@[0]@ == fs[0]);
                assert(is_cash_line(fs));
            }
            match Dec::parse(trim_str(fields[1].as_str())) {
                Some(d) => {
                    proof {
                        assert(fields@[1]@ == fs[1]);
                        lemma_parse_units_bounds(trim_spec(fs[1]), d.units as int);
                    }
                    cash = d;
                },
                None => {},
            }
        } else if fields.len() > 10 && str_eq(trim_str(fields[0].as_str()), "Symbol") {
            proof {
                assert(fields@[0]@ == fs[0]);
                assert(is_header_line(fs));
                assert(!is_cash_line(fs));
            }
            let ghost sym0 = opt_idx_view(sym_idx);
            let ghost mv0 = opt_idx_view(mv_idx);
            let m = fields.len();
            let mut j: usize = 0;
            proof {
                assert(fs.take(0) =~= Seq::<Seq<char>>::empty());
            }
            while j < m
                invariant
                    j <= m,
                    opt_idx_view(sym_idx) == scan_col(fs.take(j as int), "Symbol"@, sym0),
                    opt_idx_view(mv_idx) == scan_col(fs.take(j as int), "Market Value"@, mv0),
                decreases m - j,
            {
                let tf = trim_str(fields[j].as_str());
                proof {
                    assert(fields@[j as int]@ == fs[j as int]);
                    assert(fs.take(j as int + 1).drop_last() =~= fs.take(j as int));
                    assert(fs.take(j as int + 1).last() == fs[j as int]);
                }
                if str_eq(tf, "Symbol") {
                    sym_idx = Some(j);
                }
                if str_eq(tf, "Market Value") {
                    mv_idx = Some(j);
                }
                j = j + 1;
            }
            in_data = true;
            proof {
                assert(fs.take(m as int) =~= fs);
            }
        } else {
            proof {
                assert(!is_cash_line(fs));
                assert(!is_header_line(fs));
            }
            if in_data && fields.len() > 10 {
                match (sym_idx, mv_idx) {
                    (Some(si), Some(mi)) => {
                        if si < fields.len() && mi < fields.len() {
                            let sym = trim_str(fields[si].as_str());
                            let mvs = trim_str(fields[mi].as_str());
                            proof {
                                assert(fields@[si as int]@ == fs[si as int]);
                                assert(fields@[mi as int]@ == fs[mi as int]);
                            }
                            if !sym.is_empty() && !mvs.is_empty() {
                                match Dec::parse(mvs) {
                                    Some(d) => {
                                        let ghost pre = holdings@;
                                        let symbol = sym.to_owned();
                                        holdings.push(
                                            Holding { symbol, market_value: d },
                                        );
                                        proof {
                                            lemma_parse_units_bounds(
                                                trim_spec(fs[mi as int]),
                                                d.units as int,
                                            );
                                            assert(holdings_view(holdings@) =~= holdings_view(
                                                pre,
                                            ).push((sym@, d.units as int)));
                                        }
                                    },
                                    None => {},
                                }
                            }
                        }
                    },
                    _ => {},
                }
            }
        }
        proof {
            lemma_extract_state_take_succ(lseq, k0);
        }
        k = k + 1;
    }
    proof {
        assert(lseq.take(lines@.len() as int) =~= lseq);
    }
    (cash, holdings)
}

/// Processing one more line steps the state once.
pub proof fn lemma_extract_state_take_succ(lines: Seq<Seq<char>>, k: int)
    requires
        0 <= k < lines.len(),
    ensures
        extract_state(lines.take(k + 1)) == step(extract_state(lines.take(k)), lines[k]),
{
    assert(lines.take(k + 1).drop_last() =~= lines.take(k));
    assert(lines.take(k + 1).last() == lines[k]);
}

/// Appending one line steps the state once.
pub proof fn lemma_extract_state_snoc(lines: Seq<Seq<char>>, l: Seq<char>)
    ensures
        extract_state(lines.push(l)) == step(extract_state(lines), l),
{
    assert(lines.push(l).drop_last() =~= lines);
    assert(lines.push(l).last() == l);
}

/// Law: when no line satisfies the header predicate, extraction never
/// enters data-row mode and yields no holdings at all; a cash line may
/// still set the cash balance.
pub proof fn lemma_no_header_no_holdings(lines: Seq<Seq<char>>)
    requires
        forall|i: int| 0 <= i < lines.len() ==> !is_header_line(fields_of(#[trigger] lines[i])),
    ensures
        !extract_state(lines).in_data,
        extract_state(lines).holdings == Seq::<(Seq<char>, int)>::empty(),
    decreases lines.len(),
{
    if lines.len() > 0 {
        let prefix = lines.drop_last();
        assert(forall|i: int| 0 <= i < prefix.len() ==> prefix[i] == lines[i]);
        lemma_no_header_no_holdings(prefix);
        assert(prefix.push(lines.last()) =~= lines);
        lemma_extract_state_snoc(prefix, lines.last());
    }
}

/// A line on which [`step`] makes no difference can be cut out of (or
/// pasted into) a run without changing what is extracted.
pub proof fn lemma_inert_line_elided(pre: Seq<Seq<char>>, line: Seq<char>, post: Seq<Seq<char>>)
    requires
        step(extract_state(pre), line) == extract_state(pre),
    ensures
        extract_state(pre + seq![line] + post) == extract_state(pre + post),
    decreases post.len(),
{
    if post.len() == 0 {
        assert(pre + seq![line] + post =~= pre.push(line));
        lemma_extract_state_snoc(pre, line);
        assert(pre + post =~= pre);
    } else {
        let l = post.last();
        lemma_inert_line_elided(pre, line, post.drop_last());
        assert(pre + seq![line] + post =~= (pre + seq![line] + post.drop_last()).push(l));
        assert(pre + post =~= (pre + post.drop_last()).push(l));
        lemma_extract_state_snoc(pre + seq![line] + post.drop_last(), l);
        lemma_extract_state_snoc(pre + post.drop_last(), l);
    }
}

/// Splitting distributes over concatenation at a separator boundary.
proof fn lemma_split_on_concat(x: Seq<char>, y: Seq<char>, sep: char)
    requires
        x.len() == 0 || x.last() == sep,
    ensures
        split_on(x + y, sep) == split_on(x, sep).drop_last() + split_on(y, sep),
    decreases x.len(),
{
    if x.len() == 0 {
        assert(x + y =~= y);
        assert(first_index_of(x, sep) == 0);
        assert(split_on(x, sep) == seq![x]);
        assert(split_on(x, sep).drop_last() =~= Seq::<Seq<char>>::empty());
        assert(split_on(x, sep).drop_last() + split_on(y, sep) =~= split_on(y, sep));
    } else {
        lemma_first_index_range(x, sep);
        lemma_first_index_min(x, sep);
        let i = first_index_of(x, sep);
        assert(i < x.len()) by {
            if i == x.len() {
                assert(x[x.len() - 1] != sep);
            }
        }
        let t = x + y;
        assert(forall|j: int| 0 <= j < i ==> t[j] == x[j]);
        lemma_first_index_from(t, sep, i);
        assert(t[i] == x[i] && x[i] == sep);
        assert(first_index_of(t, sep) == i);
        assert(split_on(t, sep) == seq![t.take(i)] + split_on(t.skip(i + 1), sep));
        assert(split_on(x, sep) == seq![x.take(i)] + split_on(x.skip(i + 1), sep));
        assert(t.take(i) =~= x.take(i));
        assert(t.skip(i + 1) =~= x.skip(i + 1) + y);
        if i + 1 < x.len() {
            assert(x.skip(i + 1).last() == x.last());
        } else {
            assert(x.skip(i + 1).len() == 0);
        }
        lemma_split_on_concat(x.skip(i + 1), y, sep);
        assert(split_on(x.skip(i + 1), sep).len() >= 1);
        assert((seq![x.take(i)] + split_on(x.skip(i + 1), sep)).drop_last() =~= seq![x.take(i)]
            + split_on(x.skip(i + 1), sep).drop_last());
        assert(split_on(t, sep) =~= split_on(x, sep).drop_last() + split_on(y, sep));
    }
}

/// Appending one newline-free line (plus its line ending) to text that
/// ends at a line boundary appends exactly one line.
pub proof fn lemma_lines_snoc(a: Seq<char>, line: Seq<char>)
    requires
        a.len() == 0 || a.last() == '\n',
        forall|j: int| 0 <= j < line.len() ==> line[j] != '\n',
    ensures
        lines_spec(a + line + seq!['\n']) == lines_spec(a).push(line),
{
    let y = line + seq!['\n'];
    let t = a + y;
    assert(a + line + seq!['\n'] =~= t);
    lemma_split_on_concat(a, y, '\n');
    assert(forall|j: int| 0 <= j < line.len() ==> y[j] == line[j]);
    lemma_first_index_from(y, '\n', line.len() as int);
    assert(y[line.len() as int] == '\n');
    assert(first_index_of(y, '\n') == line.len());
    assert(split_on(y, '\n') == seq![y.take(line.len() as int)] + split_on(
        y.skip(line.len() as int + 1),
        '\n',
    ));
    assert(y.take(line.len() as int) =~= line);
    assert(y.skip(line.len() as int + 1) =~= Seq::<char>::empty());
    assert(first_index_of(Seq::<char>::empty(), '\n') == 0);
    assert(split_on(Seq::<char>::empty(), '\n') == seq![Seq::<char>::empty()]);
    assert(t.len() > 0 && t.last() == '\n');
    assert(lines_spec(t) == split_on(t, '\n').drop_last());
    if a.len() == 0 {
        assert(split_on(a, '\n').drop_last() =~= Seq::<Seq<char>>::empty());
        assert(lines_spec(a) =~= Seq::<Seq<char>>::empty());
    }
    assert(split_on(t, '\n').drop_last() =~= lines_spec(a).push(line));
}

/// A line `a,b` with comma-free halves splits into exactly those two
/// fields.
proof fn lemma_fields_pair(a: Seq<char>, b: Seq<char>)
    requires
        forall|j: int| 0 <= j < a.len() ==> a[j] != ',',
        forall|j: int| 0 <= j < b.len() ==> b[j] != ',',
    ensures
        fields_of(a + seq![','] + b) == seq![a, b],
{
    let s = a + seq![','] + b;
    assert(forall|j: int| 0 <= j < a.len() ==> s[j] == a[j]);
    lemma_first_index_from(s, ',', a.len() as int);
    assert(s[a.len() as int] == ',');
    assert(first_index_of(s, ',') == a.len());
    assert(split_on(s, ',') == seq![s.take(a.len() as int)] + split_on(
        s.skip(a.len() as int + 1),
        ',',
    ));
    assert(s.take(a.len() as int) =~= a);
    assert(s.skip(a.len() as int + 1) =~= b);
    lemma_first_index_from(b, ',', b.len() as int);
    assert(split_on(b, ',') == seq![b]);
    assert(split_on(s, ',') =~= seq![a, b]);
}

/// One line of the canonical listing: `symbol,value` written exactly.
pub open spec fn canon_line_spec(h: (Seq<char>, int)) -> Seq<char> {
    h.0 + seq![','] + fmt_exact_spec(h.1) + seq!['\n']
}

/// The canonical listing of extracted holdings: one `symbol,value`
/// line per holding.
pub open spec fn canon_spec(hs: Seq<(Seq<char>, int)>) -> Seq<char>
    decreases hs.len(),
{
    if hs.len() == 0 {
        Seq::<char>::empty()
    } else {
        canon_spec(hs.drop_last()) + canon_line_spec(hs.last())
    }
}

/// The pair a line of a `symbol,value` listing denotes, if any: at
/// least two fields, a non-empty trimmed symbol, a value that parses.
pub open spec fn pair_of_line(line: Seq<char>) -> Option<(Seq<char>, int)> {
    let fs = fields_of(line);
    if fs.len() >= 2 {
        let sym = trim_spec(fs[0]);
        match parse_units(trim_spec(fs[1])) {
            Some(v) => if sym.len() > 0 {
                Some((sym, v))
            } else {
                None
            },
            None => None,
        }
    } else {
        None
    }
}

/// What parsing a `symbol,value` listing yields: the pairs of the
/// lines that fit the shape, in order.
pub open spec fn pairs_spec(text: Seq<char>) -> Seq<(Seq<char>, int)> {
    lines_spec(text).filter_map(|l: Seq<char>| pair_of_line(l))
}

/// A symbol as extraction produces it: non-empty, free of commas and
/// line breaks, and already trimmed.
pub open spec fn clean_symbol(s: Seq<char>) -> bool {
    &&& s.len() > 0
    &&& trim_spec(s) == s
    &&& forall|j: int| 0 <= j < s.len() ==> s[j] != ',' && s[j] != '\n'
}

/// A non-empty canonical listing ends at a line boundary.
proof fn lemma_canon_last(hs: Seq<(Seq<char>, int)>)
    requires
        hs.len() > 0,
    ensures
        canon_spec(hs).len() > 0,
        canon_spec(hs).last() == '\n',
{
    let line = canon_line_spec(hs.last());
    assert(line.len() >= 1);
    assert(line.last() == '\n');
    assert(canon_spec(hs).last() == line.last());
}

/// Law: extraction is idempotent through the canonical serialization.
/// Re-parsing the canonical `symbol,value` listing of any holdings
/// whose symbols extraction could have produced yields exactly those
/// holdings again.
pub proof fn lemma_canonical_roundtrip(hs: Seq<(Seq<char>, int)>)
    requires
        forall|i: int|
            0 <= i < hs.len() ==> clean_symbol((#[trigger] hs[i]).0) && abs_int(hs[i].1)
                < PARSE_MAX_UNITS as int,
    ensures
        pairs_spec(canon_spec(hs)) == hs,
    decreases hs.len(),
{
    let pf = |l: Seq<char>| pair_of_line(l);
    if hs.len() == 0 {
        assert(lines_spec(canon_spec(hs)) =~= Seq::<Seq<char>>::empty());
        assert(Seq::<Seq<char>>::empty().filter_map(pf) =~= Seq::<(Seq<char>, int)>::empty());
        assert(pairs_spec(canon_spec(hs)) =~= hs);
    } else {
        let pre = hs.drop_last();
        let h = hs.last();
        assert(forall|i: int| 0 <= i < pre.len() ==> pre[i] == hs[i]);
        lemma_canonical_roundtrip(pre);
        let fmt = fmt_exact_spec(h.1);
        lemma_fmt_exact_chars(h.1);
        let body = h.0 + seq![','] + fmt;
        assert(clean_symbol(h.0));
        assert forall|j: int| 0 <= j < body.len() implies body[j] != '\n' by {
            if j < h.0.len() {
                assert(body[j] == h.0[j]);
            } else if j == h.0.len() {
                assert(body[j] == ',');
                assert(',' as u32 == 44);
                assert('\n' as u32 == 10);
            } else {
                assert(body[j] == fmt[j - h.0.len() - 1]);
                assert(is_digit(fmt[j - h.0.len() - 1]) || fmt[j - h.0.len() - 1] == '.' || fmt[j
                    - h.0.len() - 1] == '-');
                assert('\n' as u32 == 10);
                assert('.' as u32 == 46);
                assert('-' as u32 == 45);
            }
        }
        if pre.len() > 0 {
            lemma_canon_last(pre);
        }
        assert(canon_spec(hs) =~= canon_spec(pre) + body + seq!['\n']);
        lemma_lines_snoc(canon_spec(pre), body);
        assert(lines_spec(canon_spec(hs)) == lines_spec(canon_spec(pre)).push(body));
        assert(lines_spec(canon_spec(pre)).push(body).drop_last() =~= lines_spec(
            canon_spec(pre),
        ));
        assert(lines_spec(canon_spec(pre)).push(body).filter_map(pf) == lines_spec(
            canon_spec(pre),
        ).filter_map(pf) + (match pf(body) {
            Some(p) => seq![p],
            None => Seq::<(Seq<char>, int)>::empty(),
        }));
        // The body line denotes exactly (symbol, value).
        assert forall|j: int| 0 <= j < fmt.len() implies fmt[j] != ',' by {
            assert(is_digit(fmt[j]) || fmt[j] == '.' || fmt[j] == '-');
            assert(',' as u32 == 44);
            assert('.' as u32 == 46);
            assert('-' as u32 == 45);
        }
        lemma_fields_pair(h.0, fmt);
        assert(fields_of(body) == seq![h.0, fmt]);
        assert(trim_spec(h.0) == h.0);
        assert(!is_ws(fmt[0]) && !is_ws(fmt.last())) by {
            assert(is_digit(fmt[0]) || fmt[0] == '.' || fmt[0] == '-');
            assert(is_digit(fmt.last()) || fmt.last() == '.' || fmt.last() == '-');
            assert(' ' as u32 == 32);
            assert('\t' as u32 == 9);
            assert('\n' as u32 == 10);
            assert('\r' as u32 == 13);
            assert('\u{c}' as u32 == 12);
            assert('.' as u32 == 46);
            assert('-' as u32 == 45);
        }
        assert(trim_start_spec(fmt) == fmt);
        assert(trim_end_spec(fmt) == fmt);
        assert(trim_spec(fmt) == fmt);
        lemma_parse_fmt_exact_roundtrip(h.1);
        assert(pf(body) == Some((h.0, h.1)));
        assert(h == (h.0, h.1));
        assert(pairs_spec(canon_spec(hs)) =~= pre.push(h));
        assert(pre.push(h) =~= hs);
    }
}

/// Writes the canonical `symbol,value` listing of extracted holdings,
/// one line per holding, each value written exactly.
#[verifier::loop_isolation(false)]
pub fn canonical_pairs(holdings: &Vec<Holding>) -> (r: String)
    requires
        forall|i: int|
            0 <= i < holdings@.len() ==> (#[trigger] holdings@[i]).market_value.units
                != i128::MIN,
    ensures
        r@ == canon_spec(holdings_view(holdings@)),
{
    let ghost hv = holdings_view(holdings@);
    let mut out = String::new();
    let mut i: usize = 0;
    proof {
        assert(hv.take(0) =~= Seq::<(Seq<char>, int)>::empty());
    }
    while i < holdings.len()
        invariant
            i <= holdings.len(),
            out@ == canon_spec(hv.take(i as int)),
        decreases holdings.len() - i,
    {
        proof {
            assert(hv.take(i as int + 1).drop_last() =~= hv.take(i as int));
            assert(hv.take(i as int + 1).last() == hv[i as int]);
            assert(hv[i as int] == holdings@[i as int]@);
        }
        let ghost before = out@;
        out.append(holdings[i].symbol.as_str());
        out.append(",");
        let f = holdings[i].market_value.fmt_exact();
        out.append(f.as_str());
        out.append("\n");
        proof {
            reveal_strlit(",");
            reveal_strlit("\n");
            assert(","@ =~= seq![',']);
            assert("\n"@ =~= seq!['\n']);
            assert(out@ =~= before + canon_line_spec(hv[i as int]));
        }
        i = i + 1;
    }
    proof {
        assert(hv.take(holdings@.len() as int) =~= hv);
    }
    out
}

/// Parses a `symbol,value` listing back into holdings, as
/// [`pairs_spec`] describes; lines that do not fit the shape are
/// skipped.
#[verifier::loop_isolation(false)]
pub fn parse_pairs(text: &str) -> (r: Vec<Holding>)
    ensures
        holdings_view(r@) == pairs_spec(text@),
{
    let lines = split_lines(text);
    let ghost lseq = strs_view(lines@);
    let ghost pf = |l: Seq<char>| pair_of_line(l);
    let mut out: Vec<Holding> = Vec::new();
    let mut k: usize = 0;
    proof {
        assert(lseq.take(0) =~= Seq::<Seq<char>>::empty());
        assert(lseq.take(0).filter_map(pf) =~= Seq::<(Seq<char>, int)>::empty());
        assert(holdings_view(out@) =~= Seq::<(Seq<char>, int)>::empty());
    }
    while k < lines.len()
        invariant
            k <= lines.len(),
            holdings_view(out@) == lseq.take(k as int).filter_map(pf),
        decreases lines.len() - k,
    {
        let ghost k0 = k as int;
        let fields = split_on_char(lines[k].as_str(), ',');
        let ghost fs = fields_of(lseq[k0]);
        proof {
            assert(lines@[k0]@ == lseq[k0]);
            assert(strs_view(fields@) == fs);
            assert(fields@.len() == fs.len());
            lseq.lemma_filter_map_take_succ(pf, k0);
        }
        if fields.len() >= 2 {
            let sym = trim_str(fields[0].as_str());
            proof {
                assert(fields@[0]@ == fs[0]);
            }
            if !sym.is_empty() {
                match Dec::parse(trim_str(fields[1].as_str())) {
                    Some(d) => {
                        let ghost pre = out@;
                        let symbol = sym.to_owned();
                        holdings_push(&mut out, symbol, d);
                        proof {
                            assert(fields@[1]@ == fs[1]);
                            assert(holdings_view(out@) =~= holdings_view(pre).push(
                                (sym@, d.units as int),
                            ));
                            assert(lseq.take(k0 + 1).filter_map(pf) =~= lseq.take(k0).filter_map(
                                pf,
                            ).push((sym@, d.units as int)));
                        }
                    },
                    None => {
                        proof {
                            assert(fields@[1]@ == fs[1]);
                            assert(pf(lseq[k0]) is None);
                            assert(lseq.take(k0 + 1).filter_map(pf) =~= lseq.take(k0).filter_map(
                                pf,
                            ));
                        }
                    },
                }
            } else {
                proof {
                    assert(pf(lseq[k0]) is None);
                    assert(lseq.take(k0 + 1).filter_map(pf) =~= lseq.take(k0).filter_map(pf));
                }
            }
        } else {
            proof {
                assert(pf(lseq[k0]) is None);
                assert(lseq.take(k0 + 1).filter_map(pf) =~= lseq.take(k0).filter_map(pf));
            }
        }
        k = k + 1;
    }
    proof {
        assert(lseq.take(lines@.len() as int) =~= lseq);
    }
    out
}

/// `s` with the entries at `a` and `b` exchanged.
pub open spec fn swap_at<T>(s: Seq<T>, a: int, b: int) -> Seq<T> {
    s.update(a, s[b]).update(b, s[a])
}

/// When `name` occurs (trimmed) at exactly one position, the scan
/// finds that position, whatever was remembered before.
proof fn lemma_scan_col_unique(fs: Seq<Seq<char>>, name: Seq<char>, prev: Option<int>, p: int)
    requires
        0 <= p < fs.len(),
        trim_spec(fs[p]) == name,
        forall|i: int| 0 <= i < fs.len() && i != p ==> trim_spec(#[trigger] fs[i]) != name,
    ensures
        scan_col(fs, name, prev) == Some(p),
    decreases fs.len(),
{
    if p < fs.len() - 1 {
        assert(trim_spec(fs.last()) != name);
        assert(forall|i: int| 0 <= i < fs.drop_last().len() ==> fs.drop_last()[i] == fs[i]);
        lemma_scan_col_unique(fs.drop_last(), name, prev, p);
    }
}

/// Law: column order does not matter.  Take a header whose first
/// column is `Symbol` (and only its first), with a unique
/// `Market Value` column somewhere, and a data row at least as wide.
/// Exchanging any two non-leading column positions — the same exchange
/// in the header and the data row — leaves the extracted holdings and
/// the cash balance unchanged: data is read by column name, not by
/// fixed position.
pub proof fn lemma_column_order_independence(
    st: ExtractState,
    fs1: Seq<Seq<char>>,
    ds1: Seq<Seq<char>>,
    a: int,
    b: int,
)
    requires
        is_header_line(fs1),
        1 <= a < fs1.len(),
        1 <= b < fs1.len(),
        fs1.len() <= ds1.len(),
        ds1.len() > 10,
        !is_cash_line(ds1),
        !is_header_line(ds1),
        forall|i: int| 1 <= i < fs1.len() ==> trim_spec(#[trigger] fs1[i]) != "Symbol"@,
        exists|i: int| 0 <= i < fs1.len() && trim_spec(#[trigger] fs1[i]) == "Market Value"@,
        forall|i: int, j: int|
            0 <= i < fs1.len() && 0 <= j < fs1.len() && trim_spec(#[trigger] fs1[i])
                == "Market Value"@ && trim_spec(#[trigger] fs1[j]) == "Market Value"@ ==> i == j,
    ensures
        step_fields(step_fields(st, swap_at(fs1, a, b)), swap_at(ds1, a, b)).holdings
            == step_fields(step_fields(st, fs1), ds1).holdings,
        step_fields(step_fields(st, swap_at(fs1, a, b)), swap_at(ds1, a, b)).cash == step_fields(
            step_fields(st, fs1),
            ds1,
        ).cash,
{
    reveal_strlit("Symbol");
    reveal_strlit("Cash");
    reveal_strlit("Market Value");
    assert("Symbol"@.len() == 6);
    assert("Cash"@.len() == 4);
    assert("Market Value"@.len() == 12);
    let fs2 = swap_at(fs1, a, b);
    let ds2 = swap_at(ds1, a, b);
    assert(fs2.len() == fs1.len());
    assert(ds2.len() == ds1.len());
    assert(fs2[0] == fs1[0]);
    assert(ds2[0] == ds1[0]);
    assert(is_header_line(fs2));
    assert(!is_cash_line(fs1) && !is_cash_line(fs2));
    assert(!is_cash_line(ds2) && !is_header_line(ds2));
    // The symbol column is found at the front in both headers.
    lemma_scan_col_unique(fs1, "Symbol"@, st.sym_idx, 0);
    assert(forall|i: int| 1 <= i < fs2.len() ==> trim_spec(#[trigger] fs2[i]) != "Symbol"@);
    lemma_scan_col_unique(fs2, "Symbol"@, st.sym_idx, 0);
    // The market-value column moves with the exchange.
    let p = choose|i: int| 0 <= i < fs1.len() && trim_spec(#[trigger] fs1[i]) == "Market Value"@;
    lemma_scan_col_unique(fs1, "Market Value"@, st.mv_idx, p);
    let p2 = if p == a {
        b
    } else if p == b {
        a
    } else {
        p
    };
    assert(trim_spec(fs2[p2]) == "Market Value"@);
    assert forall|i: int| 0 <= i < fs2.len() && i != p2 implies trim_spec(#[trigger] fs2[i])
        != "Market Value"@ by {
        if i == a {
            assert(fs2[i] == fs1[b]);
        } else if i == b {
            assert(fs2[i] == fs1[a]);
        } else {
            assert(fs2[i] == fs1[i]);
        }
    }
    lemma_scan_col_unique(fs2, "Market Value"@, st.mv_idx, p2);
    let st1 = step_fields(st, fs1);
    let st2 = step_fields(st, fs2);
    assert(st1.sym_idx == Some(0int) && st1.mv_idx == Some(p));
    assert(st2.sym_idx == Some(0int) && st2.mv_idx == Some(p2));
    assert(st1.in_data && st2.in_data);
    assert(st1.holdings == st.holdings && st2.holdings == st.holdings);
    assert(st1.cash == st.cash && st2.cash == st.cash);
    // Both runs read the same symbol and the same market value.
    assert(p2 < ds2.len());
    assert(ds2[p2] == ds1[p]) by {
        if p == a {
        } else if p == b {
        } else {
        }
    }
    assert(step_fields(st1, ds1).holdings == step_fields(st2, ds2).holdings);
    assert(step_fields(st1, ds1).cash == step_fields(st2, ds2).cash);
}

/// Pushes one holding; isolated so the push's effect on the model is
/// stated once.
fn holdings_push(out: &mut Vec<Holding>, symbol: String, value: Dec)
    ensures
        final(out)@ == old(out)@.push(Holding { symbol, market_value: value }),
{
    out.push(Holding { symbol, market_value: value });
}

/// Law: a data row whose market-value field does not parse is skipped
/// without disturbing extraction: the state is unchanged, so the rows
/// around it are extracted exactly as if the malformed row were absent.
pub proof fn lemma_malformed_row_inert(st: ExtractState, line: Seq<char>)
    requires
        !is_cash_line(fields_of(line)),
        !is_header_line(fields_of(line)),
        match (st.sym_idx, st.mv_idx) {
            (Some(si), Some(mi)) => 0 <= mi < fields_of(line).len() ==> parse_units(
                trim_spec(fields_of(line)[mi]),
            ) is None,
            _ => true,
        },
    ensures
        step(st, line) == st,
{
}

} // verus!
