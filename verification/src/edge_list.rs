//! Parsing of the plain-text edge-list format: each line holds a source and a
//! target id; blank lines and lines starting with `//` or `#` are skipped, as
//! is any line with fewer than two tokens; a malformed integer is an error.
//! The node-id universe is `0 ..= max id seen`, so a file of `k` edges over
//! ids up to `m` describes a graph of `m + 1` nodes.

use vstd::prelude::*;
use vstd::slice::{slice_subrange, slice_to_vec};

verus! {

/// The whitespace bytes that separate tokens.
pub open spec fn is_ws(b: u8) -> bool {
    b == 32 || b == 9 || b == 10 || b == 11 || b == 12 || b == 13
}

pub open spec fn is_digit(b: u8) -> bool {
    48 <= b <= 57
}

/// First index at or after `i` holding a non-whitespace byte (or the length).
pub open spec fn tok_start(s: Seq<u8>, i: int) -> int
    decreases s.len() - i,
{
    if i < 0 {
        i
    } else if i >= s.len() {
        s.len() as int
    } else if !is_ws(s[i]) {
        i
    } else {
        tok_start(s, i + 1)
    }
}

/// First index at or after `i` holding a whitespace byte (or the length).
pub open spec fn tok_end(s: Seq<u8>, i: int) -> int
    decreases s.len() - i,
{
    if i < 0 {
        i
    } else if i >= s.len() {
        s.len() as int
    } else if is_ws(s[i]) {
        i
    } else {
        tok_end(s, i + 1)
    }
}

/// Value of a digit string read in base ten (non-digits count as zero; they
/// are ruled out separately).
pub open spec fn digits_val(s: Seq<u8>) -> nat
    decreases s.len(),
{
    if s.len() == 0 {
        0
    } else {
        digits_val(s.drop_last()) * 10 + (if is_digit(s.last()) {
            (s.last() - 48) as nat
        } else {
            0
        })
    }
}

/// The digit part of a token: one leading `+` is allowed.
pub open spec fn digits_of(t: Seq<u8>) -> Seq<u8> {
    if t.len() > 0 && t[0] == 43 {
        t.drop_first()
    } else {
        t
    }
}

/// The token is a well-formed non-negative integer.
pub open spec fn is_number(t: Seq<u8>) -> bool {
    &&& digits_of(t).len() > 0
    &&& forall|i: int| 0 <= i < digits_of(t).len() ==> is_digit(#[trigger] digits_of(t)[i])
}

/// What parsing a token yields: its value when it is a well-formed integer
/// that fits the machine, nothing otherwise.
pub open spec fn parsed(t: Seq<u8>) -> Option<usize> {
    if is_number(t) && digits_val(digits_of(t)) <= usize::MAX {
        Some(digits_val(digits_of(t)) as usize)
    } else {
        None
    }
}

pub open spec fn tok1_start(l: Seq<u8>) -> int {
    tok_start(l, 0)
}

pub open spec fn tok1_end(l: Seq<u8>) -> int {
    tok_end(l, tok1_start(l))
}

pub open spec fn tok2_start(l: Seq<u8>) -> int {
    tok_start(l, tok1_end(l))
}

pub open spec fn tok2_end(l: Seq<u8>) -> int {
    tok_end(l, tok2_start(l))
}

pub open spec fn tok1(l: Seq<u8>) -> Seq<u8> {
    l.subrange(tok1_start(l), tok1_end(l))
}

pub open spec fn tok2(l: Seq<u8>) -> Seq<u8> {
    l.subrange(tok2_start(l), tok2_end(l))
}

/// The line carries no edge: it is blank, a comment, or has fewer than two
/// tokens.
pub open spec fn line_skipped(l: Seq<u8>) -> bool {
    ||| tok1_start(l) == l.len()
    ||| l[tok1_start(l)] == 35
    ||| (tok1_start(l) + 1 < l.len() && l[tok1_start(l)] == 47 && l[tok1_start(l) + 1] == 47)
    ||| tok2_start(l) == l.len()
}

/// The line is acceptable: skipped, or both leading tokens parse.
pub open spec fn line_ok(l: Seq<u8>) -> bool {
    line_skipped(l) || (parsed(tok1(l)) is Some && parsed(tok2(l)) is Some)
}

/// The edge a line contributes, if any.
pub open spec fn line_pairs(l: Seq<u8>) -> Seq<(usize, usize)> {
    if !line_skipped(l) && parsed(tok1(l)) is Some && parsed(tok2(l)) is Some {
        seq![(parsed(tok1(l)).unwrap(), parsed(tok2(l)).unwrap())]
    } else {
        Seq::empty()
    }
}

/// All edges of a line sequence, in order.
pub open spec fn lines_pairs(ls: Seq<Seq<u8>>) -> Seq<(usize, usize)>
    decreases ls.len(),
{
    if ls.len() == 0 {
        Seq::empty()
    } else {
        lines_pairs(ls.drop_last()) + line_pairs(ls.last())
    }
}

/// Largest node id among the pairs; zero when there are none.
pub open spec fn max_id(ps: Seq<(usize, usize)>) -> nat
    decreases ps.len(),
{
    if ps.len() == 0 {
        0
    } else {
        let m = max_id(ps.drop_last());
        let a = ps.last().0 as nat;
        let b = ps.last().1 as nat;
        if a >= m && a >= b {
            a
        } else if b >= m {
            b
        } else {
            m
        }
    }
}

/// How one line of the input is understood.
pub enum LineParse {
    /// Blank, comment, or fewer than two tokens.
    Skip,
    /// A well-formed `source target` pair.
    Edge(usize, usize),
    /// The first token is not a valid integer; holds that token.
    BadSource(Vec<u8>),
    /// The second token is not a valid integer; holds that token.
    BadTarget(Vec<u8>),
}

/// A parsed edge list: the inferred node count and the edges in input order.
#[derive(Debug)]
pub struct EdgeList {
    pub num_nodes: usize,
    pub edges: Vec<(usize, usize)>,
}

/// Why an edge list was rejected.
#[derive(Debug)]
pub enum ParseError {
    /// A line's first token is not a valid integer; holds that token.
    InvalidSource(Vec<u8>),
    /// A line's second token is not a valid integer; holds that token.
    InvalidTarget(Vec<u8>),
    /// The largest id leaves no room for the node count.
    TooManyNodes,
}

/// Every appended digit only grows the value.
proof fn lemma_digits_val_prefix(s: Seq<u8>, m: int)
    requires
        0 <= m <= s.len(),
    ensures
        digits_val(s) >= digits_val(s.take(m)),
    decreases s.len() - m,
{
    if m == s.len() {
        assert(s.take(m) =~= s);
    } else {
        lemma_digits_val_prefix(s, m + 1);
        assert(s.take(m + 1).drop_last() =~= s.take(m));
        assert(digits_val(s.take(m + 1)) >= digits_val(s.take(m)));
    }
}

fn ws_byte(b: u8) -> (r: bool)
    ensures
        r == is_ws(b),
{
    b == 32 || b == 9 || b == 10 || b == 11 || b == 12 || b == 13
}

/// Parses `line[start .. end]` as a node id.
fn parse_node_id(line: &[u8], start: usize, end: usize) -> (r: Option<usize>)
    requires
        start <= end <= line@.len(),
    ensures
        r == parsed(line@.subrange(start as int, end as int)),
{
    let ghost t = line@.subrange(start as int, end as int);
    let mut i = start;
    if i < end && line[i] == 43 {
        i = i + 1;
    }
    let ghost d = digits_of(t);
    proof {
        assert(d =~= line@.subrange(i as int, end as int));
    }
    let dstart = i;
    if i == end {
        proof {
            assert(d.len() == 0);
            assert(!is_number(t));
        }
        return None;
    }
    let mut value: usize = 0;
    while i < end
        invariant
            start <= dstart <= i <= end <= line@.len(),
            t == line@.subrange(start as int, end as int),
            d == digits_of(t),
            d == line@.subrange(dstart as int, end as int),
            d.len() == end - dstart,
            forall|k: int| 0 <= k < i - dstart ==> is_digit(#[trigger] d[k]),
            value == digits_val(d.take(i - dstart)),
        decreases end - i,
    {
        let b = line[i];
        proof {
            assert(d[i - dstart] == b);
            assert(d.take(i - dstart + 1).drop_last() =~= d.take(i - dstart));
            assert(d.take(i - dstart + 1).last() == b);
        }
        if b < 48 || b > 57 {
            proof {
                assert(digits_of(t)[i - dstart] == b);
                assert(!is_digit(digits_of(t)[i - dstart]));
                assert(!is_number(t));
            }
            return None;
        }
        let digit = (b - 48) as usize;
        if value > (usize::MAX - digit) / 10 {
            proof {
                // value * 10 + digit no longer fits, and further digits only
                // grow the value, so the token overflows the machine.
                assert(value * 10 + digit > usize::MAX) by (nonlinear_arith)
                    requires
                        value > (usize::MAX - digit) / 10,
                        digit <= 9,
                ;
                assert(digits_val(d.take(i - dstart + 1)) > usize::MAX);
                lemma_digits_val_prefix(d, i - dstart + 1);
                assert(digits_val(d) > usize::MAX);
            }
            return None;
        }
        proof {
            assert((value * 10 + digit) <= usize::MAX) by (nonlinear_arith)
                requires
                    value <= (usize::MAX - digit) / 10,
                    digit <= 9,
            ;
        }
        value = value * 10 + digit;
        i = i + 1;
    }
    proof {
        assert(d.take(end - dstart) =~= d);
        assert forall|k: int| 0 <= k < digits_of(t).len() implies is_digit(
            #[trigger] digits_of(t)[k],
        ) by {
            assert(digits_of(t)[k] == d[k]);
        }
        assert(is_number(t));
        assert(digits_val(digits_of(t)) == value);
    }
    Some(value)
}

/// Reads one line of the edge-list format: a skipped line, an edge, or the
/// offending token of a malformed id.
pub fn parse_edge_line(line: &[u8]) -> (r: LineParse)
    ensures
        (match r {
            LineParse::Skip => line_skipped(line@),
            LineParse::Edge(a, b) => !line_skipped(line@) && parsed(tok1(line@)) == Some(a)
                && parsed(tok2(line@)) == Some(b),
            LineParse::BadSource(tk) => !line_skipped(line@) && parsed(tok1(line@)) is None
                && tk@ == tok1(line@),
            LineParse::BadTarget(tk) => !line_skipped(line@) && parsed(tok1(line@)) is Some
                && parsed(tok2(line@)) is None && tk@ == tok2(line@),
        }),
{
    let len = line.len();
    let mut a: usize = 0;
    while a < len && ws_byte(line[a])
        invariant
            a <= len == line@.len(),
            tok_start(line@, 0) == tok_start(line@, a as int),
        decreases len - a,
    {
        a = a + 1;
    }
    proof {
        assert(tok1_start(line@) == a as int);
    }
    if a == len {
        return LineParse::Skip;
    }
    if line[a] == 35 {
        return LineParse::Skip;
    }
    if line[a] == 47 && a + 1 < len && line[a + 1] == 47 {
        return LineParse::Skip;
    }
    let mut e1: usize = a;
    while e1 < len && !ws_byte(line[e1])
        invariant
            a <= e1 <= len == line@.len(),
            tok_end(line@, a as int) == tok_end(line@, e1 as int),
        decreases len - e1,
    {
        e1 = e1 + 1;
    }
    proof {
        assert(tok1_end(line@) == e1 as int);
    }
    let mut s2: usize = e1;
    while s2 < len && ws_byte(line[s2])
        invariant
            e1 <= s2 <= len == line@.len(),
            tok_start(line@, e1 as int) == tok_start(line@, s2 as int),
        decreases len - s2,
    {
        s2 = s2 + 1;
    }
    proof {
        assert(tok2_start(line@) == s2 as int);
    }
    if s2 == len {
        return LineParse::Skip;
    }
    let mut e2: usize = s2;
    while e2 < len && !ws_byte(line[e2])
        invariant
            s2 <= e2 <= len == line@.len(),
            tok_end(line@, s2 as int) == tok_end(line@, e2 as int),
        decreases len - e2,
    {
        e2 = e2 + 1;
    }
    proof {
        assert(tok2_end(line@) == e2 as int);
        assert(!line_skipped(line@));
        assert(a <= e1 <= s2 <= e2 <= len);
    }
    match parse_node_id(line, a, e1) {
        None => LineParse::BadSource(slice_to_vec(slice_subrange(line, a, e1))),
        Some(src) => {
            match parse_node_id(line, s2, e2) {
                None => LineParse::BadTarget(slice_to_vec(slice_subrange(line, s2, e2))),
                Some(dst) => LineParse::Edge(src, dst),
            }
        },
    }
}

/// Parses a whole edge-list input, given as its lines. Succeeds exactly when
/// every line is acceptable and the node count fits the machine; the edges
/// come back in input order and the node count is one past the largest id.
pub fn parse_edge_list(lines: &Vec<Vec<u8>>) -> (r: Result<EdgeList, ParseError>)
    ensures
        (r is Ok <==> (forall|i: int|
            0 <= i < lines@.len() ==> line_ok(#[trigger] lines@[i]@)) && max_id(
            lines_pairs(lines@.map_values(|l: Vec<u8>| l@)),
        ) < usize::MAX),
        r is Ok ==> {
            let el = r->Ok_0;
            &&& el.edges@ == lines_pairs(lines@.map_values(|l: Vec<u8>| l@))
            &&& el.num_nodes == max_id(el.edges@) + 1
            &&& forall|k: int|
                0 <= k < el.edges@.len() ==> (#[trigger] el.edges@[k]).0 < el.num_nodes
                    && el.edges@[k].1 < el.num_nodes
        },
{
    let ghost vls = lines@.map_values(|l: Vec<u8>| l@);
    let n = lines.len();
    let mut edges: Vec<(usize, usize)> = Vec::new();
    let mut max: usize = 0;
    let mut i: usize = 0;
    while i < n
        invariant
            n == lines@.len(),
            vls == lines@.map_values(|l: Vec<u8>| l@),
            vls.len() == n,
            i <= n,
            edges@ == lines_pairs(vls.take(i as int)),
            max as nat == max_id(edges@),
            forall|k: int| 0 <= k < i ==> line_ok(#[trigger] lines@[k]@),
        decreases n - i,
    {
        let line = &lines[i];
        proof {
            assert(vls[i as int] == lines@[i as int]@);
            assert(vls.take(i as int + 1).drop_last() =~= vls.take(i as int));
            assert(vls.take(i as int + 1).last() == vls[i as int]);
        }
        match parse_edge_line(line.as_slice()) {
            LineParse::Skip => {
                proof {
                    assert(edges@ =~= lines_pairs(vls.take(i as int + 1)));
                }
            },
            LineParse::Edge(src, dst) => {
                let ghost edges0 = edges@;
                edges.push((src, dst));
                if src > max {
                    max = src;
                }
                if dst > max {
                    max = dst;
                }
                proof {
                    assert(edges@ =~= lines_pairs(vls.take(i as int + 1)));
                    assert(edges@.drop_last() =~= edges0);
                    assert(edges@.last() == (src, dst));
                }
            },
            LineParse::BadSource(tk) => {
                proof {
                    assert(!line_ok(lines@[i as int]@));
                }
                return Result::Err(ParseError::InvalidSource(tk));
            },
            LineParse::BadTarget(tk) => {
                proof {
                    assert(!line_ok(lines@[i as int]@));
                }
                return Result::Err(ParseError::InvalidTarget(tk));
            },
        }
        i = i + 1;
    }
    proof {
        assert(vls.take(n as int) =~= vls);
    }
    if max == usize::MAX {
        return Result::Err(ParseError::TooManyNodes);
    }
    let num_nodes = max + 1;
    proof {
        lemma_max_id_bounds(edges@);
    }
    Result::Ok(EdgeList { num_nodes, edges })
}

/// Every endpoint is bounded by the largest id.
proof fn lemma_max_id_bounds(ps: Seq<(usize, usize)>)
    ensures
        forall|k: int|
            0 <= k < ps.len() ==> (#[trigger] ps[k]).0 <= max_id(ps) && ps[k].1 <= max_id(ps),
    decreases ps.len(),
{
    if ps.len() > 0 {
        lemma_max_id_bounds(ps.drop_last());
        assert(forall|k: int|
            0 <= k < ps.len() - 1 ==> #[trigger] ps[k] == ps.drop_last()[k]);
    }
}

} // verus!
