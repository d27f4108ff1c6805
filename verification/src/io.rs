//! The text forms of graphs and results.
//!
//! A graph is read from an edge list: one edge on a line, as two numbers from
//! one up with white space between them. What is read from a file, and what
//! is written to one, passes through here as bytes and strings.
use crate::counts::Counts;
use crate::graph::{arcs_of, edge_count, edge_endpoints, from_edges, order_of, span, DiGraph};
use crate::groups::{
    is_group_key, key_label, key_node_label, key_orbit, split_group_key, Groups,
};
use crate::ngraph::{flat_bits, flatten_bits};
use crate::result::EsuError;
use crate::switching::{arcs_in, simple, NodeMap};
use vstd::prelude::*;

verus! {

/// Why an edge list could not be read.
#[derive(Debug, Clone, Copy, PartialEq, Eq, Structural)]
pub enum ParseError {
    /// A line has fewer than two words.
    Truncated,
    /// A word that should be a vertex is no number that fits 32 bits.
    NonNumeric,
    /// A vertex is numbered zero; the numbers start at one.
    ZeroIndex,
    /// The list has more edges than a graph can hold.
    TooManyEdges,
}

/// Whether `b` is white space: a tab, a line feed, a vertical tab, a form
/// feed, a carriage return or a blank.
pub open spec fn is_space(b: u8) -> bool {
    b == 9 || b == 10 || b == 11 || b == 12 || b == 13 || b == 32
}

/// Whether `b` is a decimal digit.
pub open spec fn is_digit(b: u8) -> bool {
    48 <= b <= 57
}

/// Whether every byte of `s` is a decimal digit.
pub open spec fn all_digits(s: Seq<u8>) -> bool {
    forall|i: int| 0 <= i < s.len() ==> is_digit(#[trigger] s[i])
}

/// The number that the digits `s` write.
pub open spec fn digits_value(s: Seq<u8>) -> nat
    decreases s.len(),
{
    if s.len() == 0 {
        0
    } else {
        (digits_value(s.drop_last()) * 10 + (s.last() - 48)) as nat
    }
}

/// The number that the word `word` writes: digits, with or without a plus
/// sign before them, of a number that fits 32 bits.
pub open spec fn number_of(word: Seq<u8>) -> Option<u32> {
    let digits = if word.len() > 0 && word[0] == 43 {
        word.skip(1)
    } else {
        word
    };
    if digits.len() > 0 && all_digits(digits) && digits_value(digits) <= u32::MAX {
        Some(digits_value(digits) as u32)
    } else {
        None
    }
}

/// `s` without the white space that it begins with.
pub open spec fn skip_spaces(s: Seq<u8>) -> Seq<u8>
    decreases s.len(),
{
    if s.len() > 0 && is_space(s[0]) {
        skip_spaces(s.skip(1))
    } else {
        s
    }
}

/// The number of bytes before the first white space of `s`.
pub open spec fn word_len(s: Seq<u8>) -> nat
    decreases s.len(),
{
    if s.len() > 0 && !is_space(s[0]) {
        1 + word_len(s.skip(1))
    } else {
        0
    }
}

/// The number of bytes before the first line feed of `s`.
pub open spec fn line_len(s: Seq<u8>) -> nat
    decreases s.len(),
{
    if s.len() > 0 && s[0] != 10 {
        1 + line_len(s.skip(1))
    } else {
        0
    }
}

/// What one line says: an edge, or nothing where the line holds a loop and
/// loops are left out, or why it cannot be read. Only the first two words
/// of the line count. The vertices are counted from zero in the edge.
pub open spec fn parse_line(line: Seq<u8>, include_loops: bool) -> Result<
    Option<(u32, u32)>,
    ParseError,
> {
    let first = skip_spaces(line);
    let first_len = word_len(first) as int;
    let second = skip_spaces(first.skip(first_len));
    let second_len = word_len(second) as int;
    if first_len == 0 {
        Err(ParseError::Truncated)
    } else if number_of(first.take(first_len)).is_none() {
        Err(ParseError::NonNumeric)
    } else if second_len == 0 {
        Err(ParseError::Truncated)
    } else if number_of(second.take(second_len)).is_none() {
        Err(ParseError::NonNumeric)
    } else {
        let u = number_of(first.take(first_len)).unwrap();
        let v = number_of(second.take(second_len)).unwrap();
        if u == 0 || v == 0 {
            Err(ParseError::ZeroIndex)
        } else if !include_loops && u == v {
            Ok(None)
        } else {
            Ok(Some(((u - 1) as u32, (v - 1) as u32)))
        }
    }
}

/// `edges` with what a line said put before them.
pub open spec fn with_line(said: Option<(u32, u32)>, edges: Seq<(u32, u32)>) -> Seq<(u32, u32)> {
    match said {
        Some(edge) => seq![edge] + edges,
        None => edges,
    }
}

/// What an edge list says, line by line: its edges in the order of the
/// lines, or what is wrong with the first line that cannot be read.
pub open spec fn parse_text(text: Seq<u8>, include_loops: bool) -> Result<
    Seq<(u32, u32)>,
    ParseError,
>
    decreases text.len(),
{
    if text.len() == 0 {
        Ok(Seq::empty())
    } else {
        let n = line_len(text) as int;
        let rest = if n < text.len() {
            text.skip(n + 1)
        } else {
            Seq::empty()
        };
        match parse_line(text.take(n), include_loops) {
            Err(e) => Err(e),
            Ok(said) => match parse_text(rest, include_loops) {
                Err(e) => Err(e),
                Ok(edges) => Ok(with_line(said, edges)),
            },
        }
    }
}

/// Tests `is_space`.
pub fn space(b: u8) -> (r: bool)
    ensures
        r == is_space(b),
{
    b == 9 || b == 10 || b == 11 || b == 12 || b == 13 || b == 32
}

/// Where the line that begins at `from` ends: at the next line feed or at
/// the end of the text.
pub fn line_end(text: &Vec<u8>, from: usize) -> (r: usize)
    requires
        from <= text@.len(),
    ensures
        r == from + line_len(text@.skip(from as int)),
        from <= r <= text@.len(),
{
    let mut i = from;
    while i < text.len() && text[i] != 10
        invariant
            from <= i <= text@.len(),
            from + line_len(text@.skip(from as int)) == i + line_len(text@.skip(i as int)),
        decreases text@.len() - i,
    {
        proof {
            assert(text@.skip(i as int).skip(1) =~= text@.skip(i + 1));
            assert(text@.skip(i as int)[0] == text@[i as int]);
        }
        i += 1;
    }
    proof {
        if i < text@.len() {
            assert(text@.skip(i as int)[0] == text@[i as int]);
        }
    }
    i
}

/// Where the white space that begins at `from` ends, before `to` at the
/// latest.
pub fn skip_ws(text: &Vec<u8>, from: usize, to: usize) -> (r: usize)
    requires
        from <= to <= text@.len(),
    ensures
        from <= r <= to,
        text@.subrange(r as int, to as int) == skip_spaces(text@.subrange(from as int, to as int)),
{
    let mut i = from;
    while i < to && space(text[i])
        invariant
            from <= i <= to <= text@.len(),
            skip_spaces(text@.subrange(i as int, to as int)) == skip_spaces(
                text@.subrange(from as int, to as int),
            ),
        decreases to - i,
    {
        proof {
            assert(text@.subrange(i as int, to as int).skip(1) =~= text@.subrange(i + 1, to as int));
            assert(text@.subrange(i as int, to as int)[0] == text@[i as int]);
        }
        i += 1;
    }
    proof {
        if i < to {
            assert(text@.subrange(i as int, to as int)[0] == text@[i as int]);
        }
    }
    i
}

/// Where the word that begins at `from` ends, before `to` at the latest.
pub fn word_end(text: &Vec<u8>, from: usize, to: usize) -> (r: usize)
    requires
        from <= to <= text@.len(),
    ensures
        r == from + word_len(text@.subrange(from as int, to as int)),
        from <= r <= to,
{
    let mut i = from;
    while i < to && !space(text[i])
        invariant
            from <= i <= to <= text@.len(),
            from + word_len(text@.subrange(from as int, to as int)) == i + word_len(
                text@.subrange(i as int, to as int),
            ),
        decreases to - i,
    {
        proof {
            assert(text@.subrange(i as int, to as int).skip(1) =~= text@.subrange(i + 1, to as int));
            assert(text@.subrange(i as int, to as int)[0] == text@[i as int]);
        }
        i += 1;
    }
    proof {
        if i < to {
            assert(text@.subrange(i as int, to as int)[0] == text@[i as int]);
        }
    }
    i
}

/// The number that the bytes from `from` to `to` write.
pub fn parse_number(text: &Vec<u8>, from: usize, to: usize) -> (r: Option<u32>)
    requires
        from <= to <= text@.len(),
    ensures
        r == number_of(text@.subrange(from as int, to as int)),
{
    let ghost word = text@.subrange(from as int, to as int);
    let mut start = from;
    if from < to && text[from] == 43 {
        start = from + 1;
    }
    let ghost digits = text@.subrange(start as int, to as int);
    proof {
        if from < to {
            assert(word[0] == text@[from as int]);
        }
        if start == from + 1 {
            assert(word.skip(1) =~= digits);
        } else {
            assert(word =~= digits);
        }
    }
    if start == to {
        return None;
    }
    let mut value: u64 = 0;
    let mut i = start;
    while i < to
        invariant
            start <= i <= to <= text@.len(),
            start < to,
            word == text@.subrange(from as int, to as int),
            digits == text@.subrange(start as int, to as int),
            digits == (if word.len() > 0 && word[0] == 43 {
                word.skip(1)
            } else {
                word
            }),
            all_digits(digits.take(i - start)),
            value == digits_value(digits.take(i - start)),
            value <= u32::MAX,
        decreases to - i,
    {
        let b = text[i];
        proof {
            assert(digits[i - start] == b);
            assert(digits.take(i - start + 1).drop_last() =~= digits.take(i - start));
            assert(digits.take(i - start + 1).last() == b);
        }
        if b < 48 || b > 57 {
            proof {
                assert(!is_digit(digits[i - start]));
                assert(!all_digits(digits));
            }
            return None;
        }
        value = value * 10 + (b - 48) as u64;
        i += 1;
        proof {
            assert(value == digits_value(digits.take(i - start)));
            assert forall|t: int| 0 <= t < digits.take(i - start).len() implies is_digit(
                #[trigger] digits.take(i - start)[t],
            ) by {
                if t < i - start - 1 {
                    assert(digits.take(i - start - 1)[t] == digits.take(i - start)[t]);
                }
            }
        }
        if value > 0xffff_ffff {
            proof {
                lemma_digits_grow_digits(digits, i - start);
                assert(value == digits_value(digits.take(i - start)));
            }
            return None;
        }
    }
    proof {
        assert(digits.take(to - start) =~= digits);
    }
    Some(value as u32)
}

/// Among digits, more of them write no smaller a number.
pub proof fn lemma_digits_grow_digits(s: Seq<u8>, n: int)
    requires
        0 <= n <= s.len(),
    ensures
        all_digits(s) ==> digits_value(s.take(n)) <= digits_value(s),
    decreases s.len() - n,
{
    if all_digits(s) {
        if n < s.len() {
            lemma_digits_grow_digits(s, n + 1);
            assert(s.take(n + 1).drop_last() =~= s.take(n));
            assert(s.take(n + 1).last() == s[n]);
            assert(is_digit(s[n]));
            let a = digits_value(s.take(n));
            assert(a * 10 + (s[n] - 48) >= a) by (nonlinear_arith)
                requires
                    a >= 0,
                    s[n] >= 48,
            ;
        } else {
            assert(s.take(n) =~= s);
        }
    }
}

/// Reads the line that the bytes from `from` to `to` hold.
pub fn read_line(text: &Vec<u8>, from: usize, to: usize, include_loops: bool) -> (r: Result<
    Option<(u32, u32)>,
    ParseError,
>)
    requires
        from <= to <= text@.len(),
    ensures
        r == parse_line(text@.subrange(from as int, to as int), include_loops),
{
    let ghost line = text@.subrange(from as int, to as int);
    let a = skip_ws(text, from, to);
    let b = word_end(text, a, to);
    let ghost first = skip_spaces(line);
    proof {
        assert(first == text@.subrange(a as int, to as int));
        assert(first.take(b - a) =~= text@.subrange(a as int, b as int));
        assert(first.skip(b - a) =~= text@.subrange(b as int, to as int));
    }
    if b == a {
        return Err(ParseError::Truncated);
    }
    let u = match parse_number(text, a, b) {
        None => {
            return Err(ParseError::NonNumeric);
        },
        Some(u) => u,
    };
    let c = skip_ws(text, b, to);
    let d = word_end(text, c, to);
    proof {
        let second = skip_spaces(first.skip(b - a));
        assert(second == text@.subrange(c as int, to as int));
        assert(second.take(d - c) =~= text@.subrange(c as int, d as int));
    }
    if d == c {
        return Err(ParseError::Truncated);
    }
    let v = match parse_number(text, c, d) {
        None => {
            return Err(ParseError::NonNumeric);
        },
        Some(v) => v,
    };
    if u == 0 || v == 0 {
        return Err(ParseError::ZeroIndex);
    }
    if !include_loops && u == v {
        Ok(None)
    } else {
        Ok(Some((u - 1, v - 1)))
    }
}

/// What is read when the lines before `pos` gave the edges `done` and the
/// rest of the text is still to be read.
pub open spec fn read_on(
    done: Seq<(u32, u32)>,
    rest: Result<Seq<(u32, u32)>, ParseError>,
) -> Result<Seq<(u32, u32)>, ParseError> {
    match rest {
        Err(e) => Err(e),
        Ok(edges) => Ok(done + edges),
    }
}

/// Reads an edge list: one edge on a line, as two numbers from one up. The
/// edges come in the order of the lines, with the vertices counted from
/// zero. A line that joins a vertex to itself is left out unless
/// `include_loops` is set.
pub fn parse_edge_list(text: &Vec<u8>, include_loops: bool) -> (r: Result<
    Vec<(u32, u32)>,
    ParseError,
>)
    ensures
        match r {
            Ok(edges) => parse_text(text@, include_loops) == Ok::<Seq<(u32, u32)>, ParseError>(
                edges@,
            ),
            Err(e) => parse_text(text@, include_loops) == Err::<Seq<(u32, u32)>, ParseError>(e),
        },
{
    let mut edges: Vec<(u32, u32)> = Vec::new();
    let mut pos: usize = 0;
    proof {
        assert(text@.skip(0) =~= text@);
        assert(Seq::<(u32, u32)>::empty() + parse_text(text@, include_loops).unwrap()
            =~= parse_text(text@, include_loops).unwrap());
    }
    while pos < text.len()
        invariant
            pos <= text@.len(),
            parse_text(text@, include_loops) == read_on(
                edges@,
                parse_text(text@.skip(pos as int), include_loops),
            ),
        decreases text@.len() - pos,
    {
        let end = line_end(text, pos);
        let ghost here = text@.skip(pos as int);
        let ghost n = line_len(here) as int;
        let ghost rest = if n < here.len() {
            here.skip(n + 1)
        } else {
            Seq::<u8>::empty()
        };
        proof {
            assert(here.take(n) =~= text@.subrange(pos as int, end as int));
        }
        let said = read_line(text, pos, end, include_loops);
        let ghost before = edges@;
        match said {
            Err(e) => {
                return Err(e);
            },
            Ok(Some(edge)) => {
                edges.push(edge);
            },
            Ok(None) => {},
        }
        let next = if end < text.len() {
            end + 1
        } else {
            end
        };
        proof {
            assert(text@.skip(next as int) =~= rest);
            let more = parse_text(rest, include_loops);
            if more.is_ok() {
                assert(edges@ + more.unwrap() =~= before + with_line(said.unwrap(), more.unwrap()));
            }
        }
        pos = next;
    }
    proof {
        assert(text@.skip(pos as int) =~= Seq::<u8>::empty());
        assert(edges@ + Seq::<(u32, u32)>::empty() =~= edges@);
    }
    Ok(edges)
}

/// The edges without those that came before: every pair where it first
/// comes.
pub open spec fn first_pairs(edges: Seq<(u32, u32)>) -> Seq<(u32, u32)>
    decreases edges.len(),
{
    if edges.len() == 0 {
        Seq::empty()
    } else {
        let before = first_pairs(edges.drop_last());
        if before.contains(edges.last()) {
            before
        } else {
            before.push(edges.last())
        }
    }
}

/// The pairs that first come are the pairs that come, none of them twice.
pub proof fn lemma_first_pairs(edges: Seq<(u32, u32)>)
    ensures
        first_pairs(edges).no_duplicates(),
        first_pairs(edges).len() <= edges.len(),
        forall|e: (u32, u32)| first_pairs(edges).contains(e) == edges.contains(e),
    decreases edges.len(),
{
    if edges.len() > 0 {
        let front = edges.drop_last();
        let last = edges.last();
        let before = first_pairs(front);
        lemma_first_pairs(front);
        assert forall|e: (u32, u32)| first_pairs(edges).contains(e) == edges.contains(e) by {
            if edges.contains(e) {
                let i = choose|i: int| 0 <= i < edges.len() && edges[i] == e;
                if i < front.len() {
                    assert(front[i] == e);
                }
            }
            if front.contains(e) {
                let i = choose|i: int| 0 <= i < front.len() && front[i] == e;
                assert(edges[i] == e);
            }
            if e == last {
                assert(edges[edges.len() - 1] == e);
            }
            if !before.contains(last) {
                let after = before.push(last);
                assert(after[before.len() as int] == last);
                if before.contains(e) {
                    let i = choose|i: int| 0 <= i < before.len() && before[i] == e;
                    assert(after[i] == e);
                }
                if after.contains(e) {
                    let i = choose|i: int| 0 <= i < after.len() && after[i] == e;
                    if i < before.len() {
                        assert(before[i] == e);
                    }
                }
            }
        }
    }
}

/// Leaves out every edge that came before: parallel edges collapse to one,
/// which stands where the first of them stood.
pub fn collapse_edges(edges: &Vec<(u32, u32)>) -> (r: Vec<(u32, u32)>)
    ensures
        r@ == first_pairs(edges@),
{
    let mut kept: Vec<(u32, u32)> = Vec::new();
    let mut seen = NodeMap::with_capacity(0);
    let mut i: usize = 0;
    proof {
        assert(edges@.take(0) =~= Seq::<(u32, u32)>::empty());
    }
    while i < edges.len()
        invariant
            i <= edges@.len(),
            kept@ == first_pairs(edges@.take(i as int)),
            forall|e: (u32, u32)|
                arcs_in(seen).contains((e.0 as int, e.1 as int)) == #[trigger] kept@.contains(e),
        decreases edges@.len() - i,
    {
        let edge = edges[i];
        let ghost before = kept@;
        proof {
            assert(edges@.take(i + 1).drop_last() =~= edges@.take(i as int));
            assert(edges@.take(i + 1).last() == edge);
        }
        if !seen.contains_edge(edge.0 as usize, edge.1 as usize) {
            seen.add_edge(edge.0 as usize, edge.1 as usize);
            kept.push(edge);
            proof {
                assert forall|e: (u32, u32)|
                    arcs_in(seen).contains((e.0 as int, e.1 as int)) == #[trigger] kept@.contains(
                        e,
                    ) by {
                    if before.contains(e) {
                        let t = choose|t: int| 0 <= t < before.len() && before[t] == e;
                        assert(kept@[t] == e);
                    }
                    if kept@.contains(e) {
                        let t = choose|t: int| 0 <= t < kept@.len() && kept@[t] == e;
                        if t < before.len() {
                            assert(before[t] == e);
                        }
                    }
                    assert(kept@[before.len() as int] == edge);
                }
            }
        }
        i += 1;
    }
    proof {
        assert(edges@.take(edges@.len() as int) =~= edges@);
    }
    kept
}

/// The edges that the graph of an edge list holds: what the lines say, with
/// every edge that comes again left out.
pub open spec fn loaded_edges(text: Seq<u8>, include_loops: bool) -> Seq<(u32, u32)> {
    first_pairs(parse_text(text, include_loops).unwrap())
}

/// Load a graph from the text of an edge list.
///
/// Expects a 1-Indexed numeric white-space delimited edgelist. Parallel
/// edges collapse to one: the graph has the distinct edges of the list in
/// the order of their first lines, and as many nodes as the greatest vertex
/// of the list asks for. Without loops the graph is simple.
pub fn load_numeric_graph_from_buffer(buffer: &Vec<u8>, include_loops: bool) -> (r: Result<
    DiGraph,
    ParseError,
>)
    ensures
        match r {
            Ok(graph) => parse_text(buffer@, include_loops).is_ok() && {
                let edges = loaded_edges(buffer@, include_loops);
                &&& edges.len() < u32::MAX
                &&& order_of(graph) == span(edges)
                &&& arcs_of(graph).len() == edges.len()
                &&& forall|i: int|
                    0 <= i < edges.len() ==> (#[trigger] arcs_of(graph)[i]) == (
                        edges[i].0 as int,
                        edges[i].1 as int,
                    )
                &&& arcs_of(graph).no_duplicates()
                &&& !include_loops ==> simple(arcs_of(graph))
            },
            Err(e) => if parse_text(buffer@, include_loops).is_ok() {
                e == ParseError::TooManyEdges && loaded_edges(buffer@, include_loops).len()
                    >= u32::MAX
            } else {
                parse_text(buffer@, include_loops) == Err::<Seq<(u32, u32)>, ParseError>(e)
            },
        },
{
    match parse_edge_list(buffer, include_loops) {
        Err(e) => Err(e),
        Ok(lines) => {
            let edges = collapse_edges(&lines);
            if edges.len() >= 0xffff_ffff {
                return Err(ParseError::TooManyEdges);
            }
            proof {
                lemma_parsed_below_max(buffer@, include_loops);
                lemma_parsed_loops(buffer@, include_loops);
                lemma_first_pairs(lines@);
                assert forall|i: int| 0 <= i < edges@.len() implies (#[trigger] edges@[i]).0
                    < u32::MAX && edges@[i].1 < u32::MAX && (!include_loops ==> edges@[i].0
                    != edges@[i].1) by {
                    let e = edges@[i];
                    assert(first_pairs(lines@)[i] == e);
                    assert(first_pairs(lines@).contains(e));
                    assert(lines@.contains(e));
                    let t = choose|t: int| 0 <= t < lines@.len() && lines@[t] == e;
                    assert(parse_text(buffer@, include_loops).unwrap()[t] == e);
                }
            }
            let graph = from_edges(&edges);
            proof {
                let arcs = arcs_of(graph);
                assert forall|a: int, b: int| 0 <= a < arcs.len() && 0 <= b < arcs.len() && a
                    != b implies arcs[a] != arcs[b] by {
                    assert(edges@[a] != edges@[b]);
                }
            }
            Ok(graph)
        },
    }
}

/// Without loops no edge that was read joins a vertex to itself.
pub proof fn lemma_parsed_loops(text: Seq<u8>, include_loops: bool)
    ensures
        parse_text(text, include_loops).is_ok() && !include_loops ==> forall|i: int|
            0 <= i < parse_text(text, include_loops).unwrap().len() ==> (#[trigger] parse_text(
                text,
                include_loops,
            ).unwrap()[i]).0 != parse_text(text, include_loops).unwrap()[i].1,
    decreases text.len(),
{
    if text.len() > 0 && parse_text(text, include_loops).is_ok() && !include_loops {
        let n = line_len(text) as int;
        let rest = if n < text.len() {
            text.skip(n + 1)
        } else {
            Seq::empty()
        };
        lemma_parsed_loops(rest, include_loops);
        let said = parse_line(text.take(n), include_loops).unwrap();
        let more = parse_text(rest, include_loops).unwrap();
        let all = parse_text(text, include_loops).unwrap();
        assert(all == with_line(said, more));
        assert forall|i: int| 0 <= i < all.len() implies (#[trigger] all[i]).0 != all[i].1 by {
            match said {
                Some(edge) => {
                    if i > 0 {
                        assert(all[i] == more[i - 1]);
                    }
                },
                None => {},
            }
        }
    }
}

/// A vertex that was read is below the last 32-bit number: it is one less
/// than what was written.
pub proof fn lemma_parsed_below_max(text: Seq<u8>, include_loops: bool)
    ensures
        parse_text(text, include_loops).is_ok() ==> forall|i: int|
            0 <= i < parse_text(text, include_loops).unwrap().len() ==> (#[trigger] parse_text(
                text,
                include_loops,
            ).unwrap()[i]).0 < u32::MAX && parse_text(text, include_loops).unwrap()[i].1 < u32::MAX,
    decreases text.len(),
{
    if text.len() > 0 && parse_text(text, include_loops).is_ok() {
        let n = line_len(text) as int;
        let rest = if n < text.len() {
            text.skip(n + 1)
        } else {
            Seq::empty()
        };
        lemma_parsed_below_max(rest, include_loops);
        let said = parse_line(text.take(n), include_loops).unwrap();
        let more = parse_text(rest, include_loops).unwrap();
        let all = parse_text(text, include_loops).unwrap();
        assert(all == with_line(said, more));
        assert forall|i: int| 0 <= i < all.len() implies (#[trigger] all[i]).0 < u32::MAX && all[i].1
            < u32::MAX by {
            match said {
                Some(edge) => {
                    if i > 0 {
                        assert(all[i] == more[i - 1]);
                    }
                },
                None => {},
            }
        }
    }
}

/// The decimal digits of `n`, as bytes.
pub open spec fn decimal(n: nat) -> Seq<u8>
    decreases n,
{
    if n < 10 {
        seq![(48 + n) as u8]
    } else {
        decimal(n / 10).push((48 + n % 10) as u8)
    }
}

/// The decimal form of the integer `x`, with a minus sign where it is
/// negative.
pub open spec fn signed_decimal(x: int) -> Seq<u8> {
    if x < 0 {
        seq![45u8] + decimal((-x) as nat)
    } else {
        decimal(x as nat)
    }
}

/// Appends the decimal digits of `n` to `out`.
pub fn push_decimal(out: &mut Vec<u8>, n: u64)
    ensures
        final(out)@ == old(out)@ + decimal(n as nat),
    decreases n,
{
    if n < 10 {
        out.push(48 + n as u8);
        proof {
            assert(final(out)@ =~= old(out)@ + decimal(n as nat));
        }
    } else {
        push_decimal(out, n / 10);
        out.push(48 + (n % 10) as u8);
        proof {
            assert(final(out)@ =~= old(out)@ + decimal(n as nat));
        }
    }
}

/// Appends the decimal form of `x` to `out`.
pub fn push_signed(out: &mut Vec<u8>, x: i32)
    ensures
        final(out)@ == old(out)@ + signed_decimal(x as int),
{
    if x < 0 {
        out.push(45);
        push_decimal(out, (-(x as i64)) as u64);
        proof {
            assert(final(out)@ =~= old(out)@ + signed_decimal(x as int));
        }
    } else {
        push_decimal(out, x as u64);
    }
}

/// The line of the edge from `u` to `v`: the two vertices, counted from
/// one, with a tab between them.
pub open spec fn edge_line(u: int, v: int) -> Seq<u8> {
    decimal((u + 1) as nat) + seq![9u8] + decimal((v + 1) as nat) + seq![10u8]
}

/// The lines of the first `upto` of the arcs.
pub open spec fn edge_lines(arcs: Seq<(int, int)>, upto: int) -> Seq<u8>
    decreases upto,
{
    if upto <= 0 {
        Seq::empty()
    } else {
        edge_lines(arcs, upto - 1) + edge_line(arcs[upto - 1].0, arcs[upto - 1].1)
    }
}

/// The edge list of `graph`: a line for every arc, in the order of the
/// arcs.
pub fn write_graph_to_buffer(graph: &DiGraph) -> (text: Vec<u8>)
    ensures
        text@ == edge_lines(arcs_of(*graph), arcs_of(*graph).len() as int),
{
    let count = edge_count(graph);
    let order = crate::graph::node_count(graph);
    let mut text: Vec<u8> = Vec::new();
    let mut e: usize = 0;
    while e < count
        invariant
            e <= count,
            count == arcs_of(*graph).len(),
            count <= u32::MAX,
            order == order_of(*graph),
            order <= u32::MAX,
            text@ == edge_lines(arcs_of(*graph), e as int),
        decreases count - e,
    {
        let ghost before = text@;
        match edge_endpoints(graph, e) {
            Some((u, v)) => {
                push_decimal(&mut text, u as u64 + 1);
                text.push(9);
                push_decimal(&mut text, v as u64 + 1);
                text.push(10);
                proof {
                    let arcs = arcs_of(*graph);
                    assert(text@ =~= before + edge_line(arcs[e as int].0, arcs[e as int].1));
                }
            },
            None => {},
        }
        e += 1;
    }
    text
}

/// The code of a graph of `n` vertices in the graph6 family of formats, as
/// `graph6_rs::write_graph6` writes it from the adjacency matrix `adj`, row
/// after row.
pub uninterp spec fn graph6_of(adj: Seq<usize>, n: usize, directed: bool) -> Seq<u8>;

/// `graph6_rs::write_graph6`, as bytes. The function indexes the matrix up to
/// `n * n` and turns `n + 63` and every six entries into a character, so the
/// matrix must be complete, hold zeros and ones only, and `n` must be small
/// enough for one character.
#[verifier::external_body]
pub(crate) fn write_graph6(adj: Vec<usize>, n: usize, is_directed: bool) -> (code: Vec<u8>)
    requires
        1 <= n <= 62,
        adj@.len() == n * n,
        forall|i: int| 0 <= i < adj@.len() ==> adj@[i] <= 1,
    ensures
        code@ == graph6_of(adj@, n, is_directed),
{
    graph6_rs::write_graph6(adj, n, is_directed).into_bytes()
}

/// The adjacency matrix that the words `graph` hold, entry by entry: of
/// every word as many leading bits as there are words.
pub open spec fn flat_adj(graph: Seq<u64>) -> Seq<usize> {
    Seq::new(
        flat_bits(graph, graph.len() as int, graph.len() as int).len(),
        |i: int| flat_bits(graph, graph.len() as int, graph.len() as int)[i] as usize,
    )
}

/// The bits of `flat_bits` are zeros and ones, as many for each word as
/// are asked for, up to 64.
pub proof fn lemma_flat_bits(words: Seq<u64>, upto: int, take: int)
    requires
        0 <= upto <= words.len(),
        0 <= take,
    ensures
        flat_bits(words, upto, take).len() == upto * (if take < 64 {
            take
        } else {
            64
        }),
        forall|i: int|
            0 <= i < flat_bits(words, upto, take).len() ==> #[trigger] flat_bits(
                words,
                upto,
                take,
            )[i] <= 1,
    decreases upto,
{
    let width = if take < 64 {
        take
    } else {
        64
    };
    if upto > 0 {
        lemma_flat_bits(words, upto - 1, take);
        lemma_word_bits(words[upto - 1], width);
        assert(upto * width == (upto - 1) * width + width) by (nonlinear_arith);
    } else {
        assert(upto * width == 0) by (nonlinear_arith)
            requires
                upto == 0,
        ;
    }
}

/// The bits of `word_bits` are zeros and ones, as many as are asked for.
pub proof fn lemma_word_bits(w: u64, upto: int)
    requires
        0 <= upto,
    ensures
        crate::ngraph::word_bits(w, upto).len() == upto,
        forall|i: int|
            0 <= i < upto ==> #[trigger] crate::ngraph::word_bits(w, upto)[i] <= 1,
    decreases upto,
{
    if upto > 0 {
        lemma_word_bits(w, upto - 1);
    }
}

/// Convert a nauty graph of `n` vertices to a flat adjacency matrix. The
/// number of vertices is a hint for the size of the matrix only: every word
/// gives as many entries as there are words.
pub fn graph_to_flat_adj(graph: &Vec<u64>, n: usize) -> (adj: Vec<usize>)
    ensures
        adj@ == flat_adj(graph@),
{
    let bits = flatten_bits(graph, graph.len());
    let room = match n.checked_mul(n) {
        Some(room) => room,
        None => bits.len(),
    };
    let mut adj: Vec<usize> = Vec::with_capacity(room);
    let mut i: usize = 0;
    while i < bits.len()
        invariant
            i <= bits@.len(),
            adj@.len() == i,
            forall|t: int| 0 <= t < i ==> adj@[t] == bits@[t] as usize,
        decreases bits@.len() - i,
    {
        adj.push(bits[i] as usize);
        i += 1;
    }
    proof {
        assert(adj@ =~= flat_adj(graph@));
    }
    adj
}

/// Whether `label` is the dense adjacency of a graph of `k` vertices that
/// has a code: it has a word for every vertex, and there are between one
/// and 62 vertices.
pub open spec fn has_code(label: Seq<u64>, k: usize) -> bool {
    label.len() == k && 1 <= k <= 62
}

/// The code of the graph with the dense adjacency `label`.
pub open spec fn code_of(label: Seq<u64>, k: usize, directed: bool) -> Seq<u8> {
    graph6_of(flat_adj(label), k, directed)
}

/// The code of the graph of `k` vertices with the dense adjacency `label`,
/// where it has one.
pub fn canon_code(label: &Vec<u64>, k: usize, is_directed: bool) -> (r: Option<Vec<u8>>)
    ensures
        r.is_some() == has_code(label@, k),
        r.is_some() ==> r.unwrap()@ == code_of(label@, k, is_directed),
{
    if label.len() != k || k < 1 || k > 62 {
        return None;
    }
    let adj = graph_to_flat_adj(label, k);
    proof {
        lemma_flat_bits(label@, k as int, k as int);
        assert(k * k == (k as int) * (k as int));
    }
    Some(write_graph6(adj, k, is_directed))
}

/// Whether the entry `a` comes before the entry `b` when the entries are
/// put in the order of their counts, equal counts in the order of the
/// entries.
pub open spec fn count_before(vals: Seq<usize>, a: int, b: int) -> bool {
    vals[a] < vals[b] || (vals[a] == vals[b] && a < b)
}

/// Whether `order` is the table's entries in the order of their counts:
/// every entry once, each before the next.
pub open spec fn is_count_order(order: Seq<usize>, vals: Seq<usize>) -> bool {
    &&& order.len() == vals.len()
    &&& forall|i: int| 0 <= i < order.len() ==> (#[trigger] order[i]) < vals.len()
    &&& forall|i: int, j: int|
        0 <= i < j < order.len() ==> count_before(vals, #[trigger] order[i] as int, #[trigger] order[j] as int)
}

/// The entries of a table in the order of their counts, the least first,
/// and equal counts in the order of the entries.
pub fn order_by_count(vals: &Vec<usize>) -> (order: Vec<usize>)
    ensures
        is_count_order(order@, vals@),
{
    let n = vals.len();
    let mut order: Vec<usize> = Vec::with_capacity(n);
    let mut used: Vec<bool> = Vec::with_capacity(n);
    let mut i: usize = 0;
    while i < n
        invariant
            i <= n,
            used@.len() == i,
            forall|t: int| 0 <= t < i ==> !used@[t],
        decreases n - i,
    {
        used.push(false);
        i += 1;
    }
    while order.len() < n
        invariant
            n == vals@.len(),
            used@.len() == n,
            order@.len() <= n,
            forall|t: int| 0 <= t < order@.len() ==> (#[trigger] order@[t]) < n && used@[order@[t] as int],
            forall|u: int| 0 <= u < n && #[trigger] used@[u] ==> order@.contains(u as usize),
            forall|a: int, b: int|
                0 <= a < b < order@.len() ==> count_before(
                    vals@,
                    #[trigger] order@[a] as int,
                    #[trigger] order@[b] as int,
                ),
            forall|a: int, u: int|
                0 <= a < order@.len() && 0 <= u < n && !#[trigger] used@[u] ==> count_before(
                    vals@,
                    #[trigger] order@[a] as int,
                    u,
                ),
        decreases n - order@.len(),
    {
        // the least entry that is not listed
        let mut best: usize = n;
        let mut j: usize = 0;
        while j < n
            invariant
                j <= n,
                n == vals@.len(),
                used@.len() == n,
                best <= n,
                best < n ==> best < j && !used@[best as int],
                forall|u: int|
                    0 <= u < j && !#[trigger] used@[u] ==> best < n && (u == best || count_before(
                        vals@,
                        best as int,
                        u,
                    )),
            decreases n - j,
        {
            if !used[j] {
                if best == n || vals[j] < vals[best] {
                    best = j;
                }
            }
            j += 1;
        }
        if best == n {
            proof {
                // every entry is listed, and no entry twice: the list is full
                assert forall|x: usize| x < n implies #[trigger] order@.contains(x) by {
                    assert(used@[x as int]);
                }
                lemma_full(order@, used@);
            }
            return order;
        }
        let ghost before = order@;
        used[best] = true;
        order.push(best);
        proof {
            assert forall|u: int| 0 <= u < n && #[trigger] used@[u] implies order@.contains(
                u as usize,
            ) by {
                if u == best {
                    assert(order@[before.len() as int] == best);
                } else {
                    let t = choose|t: int| 0 <= t < before.len() && before[t] == u as usize;
                    assert(order@[t] == u as usize);
                }
            }
        }
    }
    order
}

/// A list that holds all `n` entries has `n` items or more.
pub proof fn lemma_full(order: Seq<usize>, used: Seq<bool>)
    requires
        forall|t: int| 0 <= t < order.len() ==> (#[trigger] order[t]) < used.len(),
        forall|x: usize| x < used.len() ==> #[trigger] order.contains(x),
        used.len() <= usize::MAX,
    ensures
        order.len() >= used.len(),
{
    let n = used.len();
    let all = Set::<usize>::new(|x: usize| x < n);
    let range = vstd::set_lib::set_int_range(0, n as int);
    vstd::set_lib::lemma_int_range(0, n as int);
    let listed = order.to_set();
    assert forall|x: usize| all.contains(x) implies listed.contains(x) by {
        assert(order.contains(x));
    }
    // the entries are as many as the numbers below `n`
    let back = all.map(|x: usize| x as int);
    assert(back =~= range) by {
        assert forall|i: int| range.contains(i) implies back.contains(i) by {
            assert(all.contains(i as usize));
            assert((i as usize) as int == i);
        }
    }
    order.lemma_cardinality_of_set();
    vstd::set_lib::lemma_set_subset_finite(listed, all);
    vstd::set_lib::lemma_map_size(all, back, |x: usize| x as int);
    vstd::set_lib::lemma_len_subset(all, listed);
}

/// The line of an entry of the counts: its code, a tab, its count.
pub open spec fn count_line(label: Seq<u64>, count: usize, k: usize, directed: bool) -> Seq<u8> {
    code_of(label, k, directed) + seq![9u8] + decimal(count as nat) + seq![10u8]
}

/// The lines of the first `upto` entries of `order`.
pub open spec fn count_lines(
    keys: Seq<Vec<u64>>,
    vals: Seq<usize>,
    order: Seq<usize>,
    k: usize,
    directed: bool,
    upto: int,
) -> Seq<u8>
    decreases upto,
{
    if upto <= 0 {
        Seq::empty()
    } else {
        count_lines(keys, vals, order, k, directed, upto - 1) + count_line(
            keys[order[upto - 1] as int]@,
            vals[order[upto - 1] as int],
            k,
            directed,
        )
    }
}

/// Whether every key of the table has a code.
pub open spec fn all_have_codes(keys: Seq<Vec<u64>>, k: usize) -> bool {
    forall|i: int| 0 <= i < keys.len() ==> has_code(#[trigger] keys[i]@, k)
}

/// The table of the counts as text: a line for every entry, with the code
/// of its graph and its count, the least count first and equal counts in
/// the order of the entries. There is none where a key has no code.
pub fn write_counts_to_buffer(canon_counts: &Counts, k: usize, is_directed: bool) -> (r: Result<
    Vec<u8>,
    EsuError,
>)
    requires
        canon_counts.wf(),
    ensures
        r.is_ok() == all_have_codes(canon_counts.keys@, k),
        r.is_err() ==> r == Err::<Vec<u8>, EsuError>(EsuError::LabelMismatch),
        r.is_ok() ==> exists|order: Seq<usize>| #[trigger]
            is_count_order(order, canon_counts.vals@) && r.unwrap()@ == count_lines(
                canon_counts.keys@,
                canon_counts.vals@,
                order,
                k,
                is_directed,
                order.len() as int,
            ),
{
    // every key must have a code before a line is written
    let mut c: usize = 0;
    while c < canon_counts.keys.len()
        invariant
            c <= canon_counts.keys@.len(),
            forall|i: int| 0 <= i < c ==> has_code(#[trigger] canon_counts.keys@[i]@, k),
        decreases canon_counts.keys@.len() - c,
    {
        if canon_counts.keys[c].len() != k || k < 1 || k > 62 {
            return Err(EsuError::LabelMismatch);
        }
        c += 1;
    }
    // Sort by count
    let order = order_by_count(&canon_counts.vals);
    let mut text: Vec<u8> = Vec::new();
    let mut i: usize = 0;
    // Write to buffer
    while i < order.len()
        invariant
            i <= order@.len(),
            canon_counts.wf(),
            is_count_order(order@, canon_counts.vals@),
            all_have_codes(canon_counts.keys@, k),
            text@ == count_lines(
                canon_counts.keys@,
                canon_counts.vals@,
                order@,
                k,
                is_directed,
                i as int,
            ),
        decreases order@.len() - i,
    {
        let at = order[i];
        let ghost before = text@;
        match canon_code(&canon_counts.keys[at], k, is_directed) {
            None => {
                proof {
                    assert(has_code(canon_counts.keys@[at as int]@, k));
                }
            },
            Some(code) => {
                let mut code = code;
                text.append(&mut code);
                text.push(9);
                push_decimal(&mut text, canon_counts.vals[at] as u64);
                text.push(10);
                proof {
                    assert(text@ =~= before + count_line(
                        canon_counts.keys@[at as int]@,
                        canon_counts.vals@[at as int],
                        k,
                        is_directed,
                    ));
                }
            },
        }
        i += 1;
    }
    Ok(text)
}

/// The first line of the table of the groups.
pub open spec fn groups_header() -> Seq<u8> {
    seq![
        110u8, 111u8, 100u8, 101u8, 95u8, 105u8, 100u8, 120u8, 9u8, 99u8, 97u8, 110u8, 111u8,
        110u8, 9u8, 108u8, 97u8, 98u8, 101u8, 108u8, 9u8, 111u8, 114u8, 98u8, 105u8, 116u8, 9u8,
        97u8, 98u8, 117u8, 110u8, 100u8, 97u8, 110u8, 99u8, 101u8, 10u8,
    ]
}

/// Whether `key` is the key of a position whose label has a code.
pub open spec fn has_group_line(key: Seq<u64>, k: usize) -> bool {
    is_group_key(key) && has_code(key_label(key), k)
}

/// The line of a position of the vertex `node`: the vertex counted from
/// one, the code of the subgraph, the label and the orbit of the vertex in
/// it, and how often the vertex takes the position, with tabs between them.
pub open spec fn group_line(node: int, key: Seq<u64>, count: usize, k: usize, directed: bool) -> Seq<
    u8,
> {
    decimal((node + 1) as nat) + seq![9u8] + code_of(key_label(key), k, directed) + seq![9u8]
        + signed_decimal(key_node_label(key)) + seq![9u8] + signed_decimal(key_orbit(key)) + seq![
        9u8,
    ] + decimal(count as nat) + seq![10u8]
}

/// The lines of the first `upto` positions of the vertex `node`.
pub open spec fn node_lines(
    node: int,
    table: &Counts,
    k: usize,
    directed: bool,
    upto: int,
) -> Seq<u8>
    decreases upto,
{
    if upto <= 0 {
        Seq::empty()
    } else {
        node_lines(node, table, k, directed, upto - 1) + group_line(
            node,
            table.keys@[upto - 1]@,
            table.vals@[upto - 1],
            k,
            directed,
        )
    }
}

/// The lines of the vertices below `upto`.
pub open spec fn group_lines(groups: &Groups, k: usize, directed: bool, upto: int) -> Seq<u8>
    decreases upto,
{
    if upto <= 0 {
        Seq::empty()
    } else {
        group_lines(groups, k, directed, upto - 1) + node_lines(
            upto - 1,
            &groups.tables@[upto - 1],
            k,
            directed,
            groups.tables@[upto - 1].keys@.len() as int,
        )
    }
}

/// Whether every position of every vertex has a line.
pub open spec fn all_have_lines(groups: &Groups, k: usize) -> bool {
    forall|v: int, i: int|
        0 <= v < groups.tables@.len() && 0 <= i < groups.tables@[v].keys@.len()
            ==> has_group_line(#[trigger] groups.tables@[v].keys@[i]@, k)
}

/// Whether every position of the table has a line.
pub open spec fn table_has_lines(table: &Counts, k: usize) -> bool {
    forall|i: int| 0 <= i < table.keys@.len() ==> has_group_line(#[trigger] table.keys@[i]@, k)
}

/// The lines of one vertex, appended to `text`. Nothing is said of the text
/// where a position has no line.
fn write_node_lines(text: &mut Vec<u8>, node: usize, table: &Counts, k: usize, is_directed: bool) -> (ok:
    bool)
    requires
        table.wf(),
        node < usize::MAX,
    ensures
        ok == table_has_lines(table, k),
        ok ==> final(text)@ == old(text)@ + node_lines(
            node as int,
            table,
            k,
            is_directed,
            table.keys@.len() as int,
        ),
{
    let mut i: usize = 0;
    while i < table.keys.len()
        invariant
            i <= table.keys@.len(),
            table.wf(),
            node < usize::MAX,
            forall|t: int| 0 <= t < i ==> has_group_line(#[trigger] table.keys@[t]@, k),
            text@ == old(text)@ + node_lines(node as int, table, k, is_directed, i as int),
        decreases table.keys@.len() - i,
    {
        let ghost before = text@;
        let (label, node_label, orbit) = match split_group_key(&table.keys[i]) {
            None => {
                return false;
            },
            Some(parts) => parts,
        };
        let mut code = match canon_code(&label, k, is_directed) {
            None => {
                return false;
            },
            Some(code) => code,
        };
        push_decimal(text, node as u64 + 1);
        text.push(9);
        text.append(&mut code);
        text.push(9);
        push_signed(text, node_label);
        text.push(9);
        push_signed(text, orbit);
        text.push(9);
        push_decimal(text, table.vals[i] as u64);
        text.push(10);
        proof {
            assert(text@ =~= before + group_line(
                node as int,
                table.keys@[i as int]@,
                table.vals@[i as int],
                k,
                is_directed,
            ));
            assert(text@ =~= old(text)@ + node_lines(node as int, table, k, is_directed, i + 1));
        }
        i += 1;
    }
    true
}

/// The table of the groups as text: after the header, unless it is left
/// out, a line for every position of every vertex, the vertices in their
/// order and the positions of a vertex in the order in which they first came.
/// There is none where a position has no line.
pub fn write_groups_to_buffer(groups: &Groups, k: usize, is_directed: bool, no_header: bool) -> (r:
    Result<Vec<u8>, EsuError>)
    requires
        groups.wf(),
    ensures
        r.is_ok() == all_have_lines(groups, k),
        r.is_err() ==> r == Err::<Vec<u8>, EsuError>(EsuError::LabelMismatch),
        r.is_ok() ==> r.unwrap()@ == (if no_header {
            Seq::<u8>::empty()
        } else {
            groups_header()
        }) + group_lines(groups, k, is_directed, groups.tables@.len() as int),
{
    let mut text: Vec<u8> = Vec::new();
    if !no_header {
        push_header(&mut text);
    }
    let ghost head = text@;
    let mut v: usize = 0;
    proof {
        assert(text@ =~= head + group_lines(groups, k, is_directed, 0));
    }
    while v < groups.tables.len()
        invariant
            v <= groups.tables@.len(),
            groups.wf(),
            head == (if no_header {
                Seq::<u8>::empty()
            } else {
                groups_header()
            }),
            forall|t: int| 0 <= t < v ==> table_has_lines(#[trigger] &groups.tables@[t], k),
            text@ == head + group_lines(groups, k, is_directed, v as int),
        decreases groups.tables@.len() - v,
    {
        let ghost before = text@;
        let ok = write_node_lines(&mut text, v, &groups.tables[v], k, is_directed);
        if !ok {
            proof {
                let table = &groups.tables@[v as int];
                let i = choose|i: int|
                    0 <= i < table.keys@.len() && !has_group_line(#[trigger] table.keys@[i]@, k);
                assert(!has_group_line(groups.tables@[v as int].keys@[i]@, k));
            }
            return Err(EsuError::LabelMismatch);
        }
        v += 1;
        proof {
            assert(text@ =~= head + group_lines(groups, k, is_directed, v as int));
        }
    }
    proof {
        assert forall|t: int, i: int|
            0 <= t < groups.tables@.len() && 0 <= i < groups.tables@[t].keys@.len() implies has_group_line(
            #[trigger] groups.tables@[t].keys@[i]@,
            k,
        ) by {
            assert(table_has_lines(&groups.tables@[t], k));
        }
    }
    Ok(text)
}

/// Appends the header of the table of the groups.
fn push_header(text: &mut Vec<u8>)
    ensures
        final(text)@ == old(text)@ + groups_header(),
{
    let header: [u8; 37] = [
        110, 111, 100, 101, 95, 105, 100, 120, 9, 99, 97, 110, 111, 110, 9, 108, 97, 98, 101, 108,
        9, 111, 114, 98, 105, 116, 9, 97, 98, 117, 110, 100, 97, 110, 99, 101, 10,
    ];
    let mut i: usize = 0;
    while i < 37
        invariant
            i <= 37,
            header@ == groups_header(),
            text@ == old(text)@ + groups_header().take(i as int),
        decreases 37 - i,
    {
        text.push(header[i]);
        i += 1;
        proof {
            assert(text@ =~= old(text)@ + groups_header().take(i as int));
        }
    }
    proof {
        assert(groups_header().take(37) =~= groups_header());
    }
}

/// A table from names to numbers, for looking up the number of a name.
///
/// The table is a `hashbrown::HashMap`. The verifier does not look into it:
/// what it holds is told by `ids_in`.
#[verifier::external_body]
pub struct NameMap {
    map: hashbrown::HashMap<Vec<u8>, u32>,
}

/// The numbers that `m` holds, by name.
pub uninterp spec fn ids_in(m: NameMap) -> Map<Seq<u8>, u32>;

impl NameMap {
    /// `HashMap::with_capacity` of `hashbrown`: a map without entries.
    #[verifier::external_body]
    pub(crate) fn with_capacity(n: usize) -> (m: Self)
        ensures
            ids_in(m) == (Map::<Seq<u8>, u32>::empty()),
    {
        NameMap { map: hashbrown::HashMap::with_capacity(n) }
    }

    /// `HashMap::get` of `hashbrown`: the number under the name, if the map
    /// has the name.
    #[verifier::external_body]
    pub(crate) fn get(&self, name: &Vec<u8>) -> (r: Option<u32>)
        ensures
            r == if ids_in(*self).dom().contains(name@) {
                Some(ids_in(*self)[name@])
            } else {
                None
            },
    {
        self.map.get(name).copied()
    }

    /// `HashMap::insert` of `hashbrown`: puts the number under the name, in
    /// place of what was there.
    #[verifier::external_body]
    pub(crate) fn insert(&mut self, name: Vec<u8>, id: u32)
        ensures
            ids_in(*final(self)) == ids_in(*old(self)).insert(name@, id),
    {
        self.map.insert(name, id);
    }
}

/// The names `names`, as mathematics has them.
pub open spec fn names_of(names: Seq<Vec<u8>>) -> Seq<Seq<u8>> {
    Seq::new(names.len(), |i: int| names[i]@)
}

/// What has been read of a list of edges between named nodes.
pub struct Named {
    /// The names, each at the index that is its number.
    pub names: Seq<Seq<u8>>,
    /// The edges, by the numbers of their nodes, none twice.
    pub edges: Seq<(u32, u32)>,
    /// The number of loops that were left out.
    pub filtered: nat,
}

/// The number of `name`: the first index at which it stands among the
/// names, or their number where it is new.
pub open spec fn name_index(names: Seq<Seq<u8>>, name: Seq<u8>) -> int
    decreases names.len(),
{
    if names.len() == 0 {
        0
    } else if names.drop_last().contains(name) {
        name_index(names.drop_last(), name)
    } else {
        names.len() - 1 + if names.last() == name {
            0int
        } else {
            1int
        }
    }
}

/// The names with `name` among them: added at the end where it was not.
pub open spec fn with_name(names: Seq<Seq<u8>>, name: Seq<u8>) -> Seq<Seq<u8>> {
    if names.contains(name) {
        names
    } else {
        names.push(name)
    }
}

/// The most names and the most edges that are read.
pub open spec fn most() -> int {
    0xffff_fffe
}

/// What has been read once the line `line` is read, too: a loop is counted
/// and left out where loops are filtered; another line names its two nodes,
/// which are numbered if they are new, and its edge is taken if it is new.
/// Only the first two words of the line count.
pub open spec fn name_line(state: Named, line: Seq<u8>, filter_loops: bool) -> Result<
    Named,
    ParseError,
> {
    let first = skip_spaces(line);
    let first_len = word_len(first) as int;
    let second = skip_spaces(first.skip(first_len));
    let second_len = word_len(second) as int;
    let u = first.take(first_len);
    let v = second.take(second_len);
    if first_len == 0 || second_len == 0 {
        Err(ParseError::Truncated)
    } else if filter_loops && u == v {
        Ok(Named { names: state.names, edges: state.edges, filtered: state.filtered + 1 })
    } else if state.names.len() + 2 > most() || state.edges.len() + 1 > most() {
        Err(ParseError::TooManyEdges)
    } else {
        let names = with_name(with_name(state.names, u), v);
        let edge = (name_index(names, u) as u32, name_index(names, v) as u32);
        Ok(
            Named {
                names,
                edges: if state.edges.contains(edge) {
                    state.edges
                } else {
                    state.edges.push(edge)
                },
                filtered: state.filtered,
            },
        )
    }
}

/// What has been read once the lines of `text` are read, too, one after the
/// other: or what is wrong with the first line that cannot be read.
pub open spec fn name_text(state: Named, text: Seq<u8>, filter_loops: bool) -> Result<
    Named,
    ParseError,
>
    decreases text.len(),
{
    if text.len() == 0 {
        Ok(state)
    } else {
        let n = line_len(text) as int;
        let rest = if n < text.len() {
            text.skip(n + 1)
        } else {
            Seq::empty()
        };
        match name_line(state, text.take(n), filter_loops) {
            Err(e) => Err(e),
            Ok(next) => name_text(next, rest, filter_loops),
        }
    }
}

/// Nothing read yet.
pub open spec fn nothing_named() -> Named {
    Named { names: Seq::empty(), edges: Seq::empty(), filtered: 0 }
}

/// A copy of the bytes from `from` to `to`.
pub fn copy_range(text: &Vec<u8>, from: usize, to: usize) -> (r: Vec<u8>)
    requires
        from <= to <= text@.len(),
    ensures
        r@ == text@.subrange(from as int, to as int),
{
    let mut r: Vec<u8> = Vec::with_capacity(to - from);
    let mut i = from;
    while i < to
        invariant
            from <= i <= to <= text@.len(),
            r@ == text@.subrange(from as int, i as int),
        decreases to - i,
    {
        r.push(text[i]);
        i += 1;
        proof {
            assert(r@ =~= text@.subrange(from as int, i as int));
        }
    }
    r
}

/// Where a name stands among distinct names.
pub proof fn lemma_name_index(names: Seq<Seq<u8>>, name: Seq<u8>)
    ensures
        0 <= name_index(names, name) <= names.len(),
        names.contains(name) ==> name_index(names, name) < names.len() && names[name_index(
            names,
            name,
        )] == name,
        !names.contains(name) ==> name_index(names, name) == names.len(),
    decreases names.len(),
{
    if names.len() > 0 {
        let front = names.drop_last();
        lemma_name_index(front, name);
        if front.contains(name) {
            let i = choose|i: int| 0 <= i < front.len() && front[i] == name;
            assert(names[i] == name);
            assert(names[name_index(front, name)] == front[name_index(front, name)]);
        } else if names.last() == name {
            assert(names[names.len() - 1] == name);
        } else {
            if names.contains(name) {
                let i = choose|i: int| 0 <= i < names.len() && names[i] == name;
                assert(front[i] == name);
            }
        }
    }
}

/// Among distinct names every name stands at its own index.
pub proof fn lemma_name_index_at(names: Seq<Seq<u8>>, i: int)
    requires
        names.no_duplicates(),
        0 <= i < names.len(),
    ensures
        name_index(names, names[i]) == i,
{
    lemma_name_index(names, names[i]);
    assert(names.contains(names[i]));
}

/// A graph whose nodes have names.
pub struct FormatGraph {
    /// The graph, with the nodes numbered from zero.
    pub graph: DiGraph,
    /// The name of every node, at the index that is its number.
    pub node_dict: Vec<Vec<u8>>,
    /// The number of loops that were left out.
    pub num_filtered: usize,
}

/// The number of `name` among `names`, numbering it if it is new.
fn number_name(names: &mut Vec<Vec<u8>>, ids: &mut NameMap, name: Vec<u8>) -> (id: u32)
    requires
        old(names)@.len() < 0xffff_ffff,
        names_of(old(names)@).no_duplicates(),
        forall|i: int|
            0 <= i < old(names)@.len() ==> ids_in(*old(ids)).dom().contains(
                #[trigger] old(names)@[i]@,
            ) && ids_in(*old(ids))[old(names)@[i]@] == i,
        forall|key: Seq<u8>|
            ids_in(*old(ids)).dom().contains(key) ==> names_of(old(names)@).contains(
                key,
            ),
    ensures
        names_of(final(names)@) == with_name(names_of(old(names)@), name@),
        id == name_index(names_of(final(names)@), name@),
        names_of(final(names)@).no_duplicates(),
        forall|i: int|
            0 <= i < final(names)@.len() ==> ids_in(*final(ids)).dom().contains(
                #[trigger] final(names)@[i]@,
            ) && ids_in(*final(ids))[final(names)@[i]@] == i,
        forall|key: Seq<u8>|
            ids_in(*final(ids)).dom().contains(key) ==> names_of(
                final(names)@,
            ).contains(key),
{
    let ghost before = names_of(names@);
    match ids.get(&name) {
        Some(id) => {
            proof {
                assert(before.contains(name@));
                let i = choose|i: int| 0 <= i < before.len() && before[i] == name@;
                assert(names@[i]@ == name@);
                lemma_name_index_at(before, i);
            }
            id
        },
        None => {
            let id = names.len() as u32;
            let ghost key = name@;
            proof {
                if before.contains(key) {
                    let i = choose|i: int| 0 <= i < before.len() && before[i] == key;
                    assert(names@[i]@ == key);
                }
            }
            ids.insert(copy_range(&name, 0, name.len()), id);
            names.push(name);
            proof {
                let after = names_of(names@);
                assert(name@.subrange(0, name@.len() as int) =~= name@);
                assert(after =~= before.push(key));
                assert forall|i: int, j: int| 0 <= i < j < after.len() implies after[i]
                    != after[j] by {
                    if j == before.len() {
                        assert(before[i] == after[i]);
                        assert(before.contains(after[i]));
                    } else {
                        assert(before[i] == after[i] && before[j] == after[j]);
                    }
                }
                lemma_name_index_at(after, before.len() as int);
                assert forall|i: int| 0 <= i < names@.len() implies ids_in(*ids).dom().contains(
                    #[trigger] names@[i]@,
                ) && ids_in(*ids)[names@[i]@] == i by {
                    if i < before.len() {
                        assert(before[i] == names@[i]@);
                        assert(old(names)@[i]@ == names@[i]@);
                        assert(before.contains(names@[i]@));
                    }
                }
                assert forall|other: Seq<u8>| ids_in(*ids).dom().contains(
                    other,
                ) implies after.contains(other) by {
                    if other == key {
                        assert(after[before.len() as int] == key);
                    } else {
                        assert(before.contains(other));
                        let i = choose|i: int| 0 <= i < before.len() && before[i] == other;
                        assert(after[i] == other);
                    }
                }
            }
            id
        },
    }
}

impl FormatGraph {
    pub fn new(graph: DiGraph, node_dict: Vec<Vec<u8>>, num_filtered: usize) -> (r: Self)
        ensures
            r.graph == graph,
            r.node_dict == node_dict,
            r.num_filtered == num_filtered,
    {
        Self { graph, node_dict, num_filtered }
    }

    /// Whether this is what `read` says: the names, the edges in the order
    /// in which they first came, and the number of loops left out.
    pub open spec fn holds(&self, read: Named) -> bool {
        &&& names_of(self.node_dict@) == read.names
        &&& self.num_filtered == read.filtered
        &&& arcs_of(self.graph).len() == read.edges.len()
        &&& forall|i: int|
            0 <= i < read.edges.len() ==> (#[trigger] arcs_of(self.graph)[i]) == (
                read.edges[i].0 as int,
                read.edges[i].1 as int,
            )
        &&& order_of(self.graph) == span(read.edges)
    }

    /// Reads a graph from the text of a list of edges between named nodes:
    /// one edge on a line, as two names with white space between them. The
    /// nodes are numbered in the order in which their names first come. An
    /// edge that comes again is not taken again. With `filter_loops` a line
    /// that names one node twice is counted and left out.
    pub fn from_buffer(buffer: &Vec<u8>, filter_loops: bool) -> (r: Result<Self, ParseError>)
        ensures
            match r {
                Ok(read) => name_text(nothing_named(), buffer@, filter_loops).is_ok() && read.holds(
                    name_text(nothing_named(), buffer@, filter_loops).unwrap(),
                ),
                Err(e) => name_text(nothing_named(), buffer@, filter_loops) == Err::<
                    Named,
                    ParseError,
                >(e) || (e == ParseError::TooManyEdges && name_text(
                    nothing_named(),
                    buffer@,
                    filter_loops,
                ).is_ok() && name_text(nothing_named(), buffer@, filter_loops).unwrap().filtered
                    > usize::MAX),
            },
    {
        let mut names: Vec<Vec<u8>> = Vec::new();
        let mut ids = NameMap::with_capacity(0);
        let mut edges: Vec<(u32, u32)> = Vec::new();
        let mut seen = NodeMap::with_capacity(0);
        let mut num_filtered: usize = 0;
        let mut overflow = false;
        let ghost mut state = nothing_named();
        let mut pos: usize = 0;
        proof {
            assert(buffer@.skip(0) =~= buffer@);
            assert(names_of(names@) =~= state.names);
        }
        while pos < buffer.len()
            invariant
                pos <= buffer@.len(),
                name_text(state, buffer@.skip(pos as int), filter_loops) == name_text(
                    nothing_named(),
                    buffer@,
                    filter_loops,
                ),
                names_of(names@) == state.names,
                edges@ == state.edges,
                !overflow ==> num_filtered == state.filtered,
                overflow ==> state.filtered > usize::MAX,
                names@.len() <= most(),
                edges@.len() <= most(),
                state.names.no_duplicates(),
                forall|i: int|
                    0 <= i < names@.len() ==> ids_in(ids).dom().contains(#[trigger] names@[i]@)
                        && ids_in(ids)[names@[i]@] == i,
                forall|key: Seq<u8>|
                    ids_in(ids).dom().contains(key) ==> names_of(names@).contains(key),
                forall|edge: (u32, u32)|
                    arcs_in(seen).contains((edge.0 as int, edge.1 as int)) == #[trigger] edges@.contains(
                        edge,
                    ),
                forall|i: int|
                    0 <= i < edges@.len() ==> (#[trigger] edges@[i]).0 < names@.len() && edges@[i].1
                        < names@.len(),
            decreases buffer@.len() - pos,
        {
            let end = line_end(buffer, pos);
            let ghost here = buffer@.skip(pos as int);
            let ghost n = line_len(here) as int;
            let ghost rest = if n < here.len() {
                here.skip(n + 1)
            } else {
                Seq::<u8>::empty()
            };
            let ghost line = buffer@.subrange(pos as int, end as int);
            proof {
                assert(here.take(n) =~= line);
            }
            let a = skip_ws(buffer, pos, end);
            let b = word_end(buffer, a, end);
            let c = skip_ws(buffer, b, end);
            let d = word_end(buffer, c, end);
            proof {
                let first = skip_spaces(line);
                assert(first == buffer@.subrange(a as int, end as int));
                assert(first.take(b - a) =~= buffer@.subrange(a as int, b as int));
                assert(first.skip(b - a) =~= buffer@.subrange(b as int, end as int));
                let second = skip_spaces(first.skip(b - a));
                assert(second == buffer@.subrange(c as int, end as int));
                assert(second.take(d - c) =~= buffer@.subrange(c as int, d as int));
            }
            if b == a || d == c {
                return Err(ParseError::Truncated);
            }
            let u = copy_range(buffer, a, b);
            let v = copy_range(buffer, c, d);
            if filter_loops && crate::io::same_bytes(&u, &v) {
                if num_filtered < usize::MAX {
                    num_filtered += 1;
                } else {
                    overflow = true;
                }
                proof {
                    state = Named {
                        names: state.names,
                        edges: state.edges,
                        filtered: state.filtered + 1,
                    };
                }
            } else {
                if names.len() > 0xffff_fffc || edges.len() > 0xffff_fffd {
                    return Err(ParseError::TooManyEdges);
                }
                let ghost names0 = state.names;
                let ghost edges0 = edges@;
                let x = number_name(&mut names, &mut ids, u);
                let ghost names1 = names_of(names@);
                let ghost u_name = buffer@.subrange(a as int, b as int);
                let ghost v_name = buffer@.subrange(c as int, d as int);
                let y = number_name(&mut names, &mut ids, v);
                let ghost names2 = names_of(names@);
                proof {
                    lemma_name_index(names1, u_name);
                    lemma_name_index(names2, u_name);
                    lemma_name_index(names2, v_name);
                    assert(names1.contains(u_name)) by {
                        if names0.contains(u_name) {
                        } else {
                            assert(names1[names0.len() as int] == u_name);
                        }
                    }
                    let i = name_index(names1, u_name);
                    assert(names2[i] == u_name) by {
                        if names1.contains(v_name) {
                        } else {
                            assert(names2 == names1.push(v_name));
                        }
                    }
                    assert(names2.contains(u_name));
                    lemma_name_index_at(names2, i);
                    assert(x == name_index(names2, u_name));
                    assert(names2.contains(v_name)) by {
                        if names1.contains(v_name) {
                        } else {
                            assert(names2[names1.len() as int] == v_name);
                        }
                    }
                }
                if !seen.contains_edge(x as usize, y as usize) {
                    seen.add_edge(x as usize, y as usize);
                    edges.push((x, y));
                    proof {
                        assert forall|edge: (u32, u32)|
                            arcs_in(seen).contains((edge.0 as int, edge.1 as int))
                                == #[trigger] edges@.contains(edge) by {
                            if edge == (x, y) {
                                assert(edges@[edges0.len() as int] == edge);
                            } else {
                                if edges0.contains(edge) {
                                    let t = choose|t: int| 0 <= t < edges0.len() && edges0[t] == edge;
                                    assert(edges@[t] == edge);
                                }
                                if edges@.contains(edge) {
                                    let t = choose|t: int| 0 <= t < edges@.len() && edges@[t] == edge;
                                    assert(edges0[t] == edge);
                                }
                            }
                        }
                    }
                } else {
                    proof {
                        assert(edges0.contains((x, y)));
                    }
                }
                proof {
                    if !edges0.contains((x, y)) {
                        assert(!arcs_in(seen).contains((x as int, y as int)) || edges@.len()
                            == edges0.len() + 1);
                    }
                    state = Named {
                        names: names2,
                        edges: edges@,
                        filtered: state.filtered,
                    };
                    assert forall|t: int| 0 <= t < edges@.len() implies (#[trigger] edges@[t]).0
                        < names@.len() && edges@[t].1 < names@.len() by {
                        if t < edges0.len() {
                            assert(edges0[t] == edges@[t]);
                        }
                    }
                }
            }
            let next = if end < buffer.len() {
                end + 1
            } else {
                end
            };
            proof {
                assert(buffer@.skip(next as int) =~= rest);
            }
            pos = next;
        }
        proof {
            assert(buffer@.skip(pos as int) =~= Seq::<u8>::empty());
        }
        if overflow {
            return Err(ParseError::TooManyEdges);
        }
        let graph = from_edges(&edges);
        Ok(FormatGraph { graph, node_dict: names, num_filtered })
    }

    /// The edge list of the graph: a line for every edge, with the numbers
    /// of its nodes counted from one.
    pub fn write_graph(&self) -> (text: Vec<u8>)
        ensures
            text@ == edge_lines(arcs_of(self.graph), arcs_of(self.graph).len() as int),
    {
        write_graph_to_buffer(&self.graph)
    }

    /// The dictionary of the nodes: a line for every node, with its name and
    /// its number counted from one, in the order of the numbers.
    pub fn write_node_dict(&self) -> (text: Vec<u8>)
        ensures
            text@ == dict_lines(self.node_dict@, self.node_dict@.len() as int),
    {
        let mut text: Vec<u8> = Vec::new();
        let mut i: usize = 0;
        while i < self.node_dict.len()
            invariant
                i <= self.node_dict@.len(),
                text@ == dict_lines(self.node_dict@, i as int),
            decreases self.node_dict@.len() - i,
        {
            let ghost before = text@;
            let mut name = copy_range(&self.node_dict[i], 0, self.node_dict[i].len());
            proof {
                assert(name@ =~= self.node_dict@[i as int]@);
            }
            text.append(&mut name);
            text.push(9);
            push_decimal(&mut text, i as u64 + 1);
            text.push(10);
            proof {
                assert(text@ =~= before + dict_line(self.node_dict@[i as int]@, i as int));
            }
            i += 1;
        }
        text
    }

    /// The number of nodes.
    pub fn node_count(&self) -> (r: usize)
        ensures
            r == order_of(self.graph),
    {
        crate::graph::node_count(&self.graph)
    }

    /// The number of edges.
    pub fn edge_count(&self) -> (r: usize)
        ensures
            r == arcs_of(self.graph).len(),
    {
        edge_count(&self.graph)
    }

    /// The number of loops that were left out.
    pub fn loops_removed(&self) -> (r: usize)
        ensures
            r == self.num_filtered,
    {
        self.num_filtered
    }
}

/// The line of the node `index` of the dictionary: its name, a tab, and its
/// number counted from one.
pub open spec fn dict_line(name: Seq<u8>, index: int) -> Seq<u8> {
    name + seq![9u8] + decimal((index + 1) as nat) + seq![10u8]
}

/// The lines of the first `upto` nodes of the dictionary.
pub open spec fn dict_lines(names: Seq<Vec<u8>>, upto: int) -> Seq<u8>
    decreases upto,
{
    if upto <= 0 {
        Seq::empty()
    } else {
        dict_lines(names, upto - 1) + dict_line(names[upto - 1]@, upto - 1)
    }
}

/// Whether two names are the same.
pub fn same_bytes(a: &Vec<u8>, b: &Vec<u8>) -> (r: bool)
    ensures
        r == (a@ == b@),
{
    if a.len() != b.len() {
        return false;
    }
    let mut i: usize = 0;
    while i < a.len()
        invariant
            i <= a@.len(),
            a@.len() == b@.len(),
            forall|k: int| 0 <= k < i ==> a@[k] == b@[k],
        decreases a@.len() - i,
    {
        if a[i] != b[i] {
            return false;
        }
        i += 1;
    }
    assert(a@ =~= b@);
    true
}

} // verus!
