//! A graph given by a 0-1 adjacency matrix, assembled from the textual
//! lines of a matrix description: one row per non-blank line, `0` and `1`
//! entries, whitespace ignored.

use vstd::prelude::*;
use vstd::string::StrSliceExecFns;

use crate::GraphError;

verus! {

/// Whether `c` has the Unicode White_Space property: the ASCII
/// whitespace characters together with NEL, NBSP, the Ogham space mark,
/// the typographic spaces, the line and paragraph separators, the narrow
/// and medium mathematical spaces, and the ideographic space.
pub open spec fn is_whitespace_char(c: char) -> bool {
    ||| c as u32 == 0x20
    ||| (0x09 <= c as u32 && c as u32 <= 0x0D)
    ||| c as u32 == 0x85
    ||| c as u32 == 0xA0
    ||| c as u32 == 0x1680
    ||| (0x2000 <= c as u32 && c as u32 <= 0x200A)
    ||| c as u32 == 0x2028
    ||| c as u32 == 0x2029
    ||| c as u32 == 0x202F
    ||| c as u32 == 0x205F
    ||| c as u32 == 0x3000
}

/// Relies on char::is_whitespace: true exactly of the characters with
/// the Unicode White_Space property, which are the ones listed in
/// `is_whitespace_char`.
pub assume_specification[ char::is_whitespace ](c: char) -> (r: bool)
    ensures
        r == is_whitespace_char(c),
;

/// Keeps the characters that are not whitespace.
pub open spec fn keep_char() -> spec_fn(char) -> bool {
    |c: char| !is_whitespace_char(c)
}

/// The non-whitespace characters of a line, in order.
pub open spec fn bit_chars(s: Seq<char>) -> Seq<char> {
    s.filter(keep_char())
}

/// Whether every non-whitespace character of the line is a `0` or a `1`.
pub open spec fn line_valid(s: Seq<char>) -> bool {
    forall|j: int| 0 <= j < bit_chars(s).len() ==>
        bit_chars(s)[j] == '0' || #[trigger] bit_chars(s)[j] == '1'
}

/// Reads a character as an adjacency bit.
pub open spec fn char_bit() -> spec_fn(char) -> bool {
    |c: char| c == '1'
}

/// The adjacency bits a line encodes: one per non-whitespace character.
pub open spec fn line_bits(s: Seq<char>) -> Seq<bool> {
    bit_chars(s).map_values(char_bit())
}

/// The view of each line of a matrix description.
pub open spec fn views_of(lines: Seq<String>) -> Seq<Seq<char>> {
    lines.map_values(|s: String| s@)
}

/// Whether a line holds at least one matrix entry.
pub open spec fn nonblank() -> spec_fn(Seq<char>) -> bool {
    |s: Seq<char>| bit_chars(s).len() > 0
}

/// The lines that contribute a row: the first line always, and every
/// later line that is not blank.
pub open spec fn row_lines(vs: Seq<Seq<char>>) -> Seq<Seq<char>>
    recommends
        vs.len() >= 1,
{
    seq![vs[0]] + vs.skip(1).filter(nonblank())
}

/// Whether every contributing row parses and holds exactly `c0` entries.
pub open spec fn matrix_rows_ok(rows: Seq<Seq<char>>, c0: int) -> bool {
    forall|r: int| 0 <= r < rows.len() ==>
        line_valid(#[trigger] rows[r]) && line_bits(rows[r]).len() == c0
}

/// Whether the lines describe a well-formed square 0-1 matrix: at least
/// one line, a non-empty first row, every contributing row of the same
/// width, and as many rows as columns.
pub open spec fn matrix_ok(vs: Seq<Seq<char>>) -> bool {
    &&& vs.len() >= 1
    &&& line_bits(vs[0]).len() >= 1
    &&& matrix_rows_ok(row_lines(vs), line_bits(vs[0]).len() as int)
    &&& row_lines(vs).len() == line_bits(vs[0]).len()
}

/// The adjacency bits of the whole matrix, row-major.
pub open spec fn matrix_bits(vs: Seq<Seq<char>>) -> Seq<bool> {
    row_lines(vs).map_values(|s: Seq<char>| line_bits(s)).flatten()
}

/// Appending one more row line extends the row-major bits by that line's
/// bits.
proof fn lemma_matrix_bits_push(rows: Seq<Seq<char>>, e: Seq<char>)
    ensures
        rows.push(e).map_values(|s: Seq<char>| line_bits(s)).flatten()
            == rows.map_values(|s: Seq<char>| line_bits(s)).flatten() + line_bits(e),
{
    let f = |s: Seq<char>| line_bits(s);
    assert(rows.push(e).map_values(f) =~= rows.map_values(f).push(line_bits(e)));
    rows.map_values(f).lemma_flatten_push(line_bits(e));
    assert(rows.push(e).map_values(f).flatten()
        =~= rows.map_values(f).flatten() + line_bits(e));
}

/// A graph over `nodes_count` nodes with a square adjacency matrix,
/// stored row-major.
pub struct Graph {
    /// The number of nodes.
    nodes_count: usize,
    /// The adjacency entries, row-major.
    adjacency: Vec<bool>,
}

impl Graph {
    /// The number of nodes, as a mathematical integer.
    pub closed spec fn spec_nodes(&self) -> int {
        self.nodes_count as int
    }

    /// The flat, row-major adjacency entries.
    pub closed spec fn adj(&self) -> Seq<bool> {
        self.adjacency@
    }

    /// Well-formedness: the matrix is square.
    pub open spec fn wf(&self) -> bool {
        self.adj().len() == self.spec_nodes() * self.spec_nodes()
    }

    /// Query the number of nodes in the graph.
    pub fn nodes_count(&self) -> (r: usize)
        ensures
            r == self.spec_nodes(),
    {
        self.nodes_count
    }

    /// Test if the nodes with the given indices are adjacent.
    pub fn adjacent(&self, first: usize, second: usize) -> (r: bool)
        requires
            self.wf(),
            first < self.spec_nodes(),
            second < self.spec_nodes(),
        ensures
            r == self.adj()[first * self.spec_nodes() + second],
    {
        let len = self.adjacency.len();
        proof {
            assert(0 <= first * self.spec_nodes() + second < self.spec_nodes()
                * self.spec_nodes()) by (nonlinear_arith)
                requires
                    0 <= first as int,
                    (first as int) < self.spec_nodes(),
                    0 <= second as int,
                    (second as int) < self.spec_nodes(),
            ;
            assert(len == self.adj().len());
        }
        self.adjacency[first * self.nodes_count + second]
    }

    /// Parse one line of a matrix description, appending one adjacency
    /// bit per non-whitespace character to `adjacency` and returning how
    /// many were appended. A line with a foreign character, or with no
    /// entries at all, is rejected and leaves `adjacency` unchanged.
    pub fn parse_line(line: &str, adjacency: &mut Vec<bool>) -> (r: Result<usize, GraphError>)
        ensures
            match r {
                Ok(count) => {
                    &&& line_valid(line@)
                    &&& count == line_bits(line@).len()
                    &&& count >= 1
                    &&& final(adjacency)@ == old(adjacency)@ + line_bits(line@)
                },
                Err(GraphError::InvalidCharacter) => {
                    &&& !line_valid(line@)
                    &&& final(adjacency)@ == old(adjacency)@
                },
                Err(GraphError::EmptyRow) => {
                    &&& line_valid(line@)
                    &&& line_bits(line@).len() == 0
                    &&& final(adjacency)@ == old(adjacency)@
                },
                Err(_) => false,
            },
    {
        broadcast use vstd::prelude::Seq::lemma_filter_push;

        let len = line.unicode_len();
        let mut bits: Vec<bool> = Vec::new();
        let mut i: usize = 0;
        while i < len
            invariant
                len == line@.len(),
                i <= len,
                line_valid(line@.take(i as int)),
                bits@ == line_bits(line@.take(i as int)),
            decreases len - i,
        {
            broadcast use vstd::prelude::Seq::lemma_filter_push;

            let c = line.get_char(i);
            let ghost pre = line@.take(i as int);
            proof {
                assert(line@.take(i as int + 1) =~= pre.push(line@[i as int]));
            }
            if c == '0' {
                bits.push(false);
                proof {
                    assert(bit_chars(pre.push(c)) == bit_chars(pre).push(c));
                    assert(line_bits(pre.push(c))
                        =~= line_bits(pre).push(char_bit()(c)));
                }
            } else if c == '1' {
                bits.push(true);
                proof {
                    assert(bit_chars(pre.push(c)) == bit_chars(pre).push(c));
                    assert(line_bits(pre.push(c))
                        =~= line_bits(pre).push(char_bit()(c)));
                }
            } else if !c.is_whitespace() {
                proof {
                    assert(bit_chars(pre.push(c)) == bit_chars(pre).push(c));
                    let bad = bit_chars(pre).len() as int;
                    assert(line@ =~= line@.take(i as int + 1) + line@.skip(i as int + 1));
                    Seq::filter_distributes_over_add(
                        line@.take(i as int + 1), line@.skip(i as int + 1), keep_char());
                    assert(bit_chars(line@)[bad] == c);
                }
                return Err(GraphError::InvalidCharacter);
            } else {
                proof {
                    assert(bit_chars(pre.push(c)) == bit_chars(pre));
                    assert(line_bits(pre.push(c)) =~= line_bits(pre));
                }
            }
            i = i + 1;
        }
        proof {
            assert(line@.take(len as int) =~= line@);
        }
        let count = bits.len();
        if count < 1 {
            return Err(GraphError::EmptyRow);
        }
        adjacency.append(&mut bits);
        Ok(count)
    }

    /// Assemble a graph from the lines of a matrix description: the
    /// first line fixes the number of nodes, blank later lines are
    /// skipped, and every other line must contribute one row of the same
    /// width, with exactly as many rows as columns in the end.
    pub fn from_lines(lines: &Vec<String>) -> (r: Result<Graph, GraphError>)
        ensures
            r is Ok <==> matrix_ok(views_of(lines@)),
            r is Ok ==> {
                let g = r->Ok_0;
                &&& g.wf()
                &&& g.spec_nodes() == line_bits(views_of(lines@)[0]).len()
                &&& g.adj() == matrix_bits(views_of(lines@))
            },
    {
        broadcast use vstd::prelude::Seq::lemma_filter_push;

        let ghost vs = views_of(lines@);
        if lines.len() == 0 {
            return Err(GraphError::EmptyGraph);
        }
        let mut adjacency: Vec<bool> = Vec::new();
        let nodes = match Graph::parse_line(lines[0].as_str(), &mut adjacency) {
            Ok(c) => c,
            Err(e) => {
                proof {
                    if e is EmptyRow {
                        assert(!matrix_ok(vs));
                    } else {
                        assert(row_lines(vs)[0] == vs[0]);
                        assert(!matrix_ok(vs));
                    }
                }
                return Err(e);
            },
        };
        let mut row_count: usize = 1;
        let mut j: usize = 1;
        proof {
            assert(vs.take(1).skip(1) =~= Seq::<Seq<char>>::empty());
            assert(row_lines(vs.take(1)) =~= seq![vs[0]]);
            assert(row_lines(vs.take(1)).map_values(|s: Seq<char>| line_bits(s))
                =~= seq![line_bits(vs[0])]);
            row_lines(vs.take(1)).map_values(|s: Seq<char>| line_bits(s))
                .lemma_flatten_singleton();
            assert(adjacency@ == matrix_bits(vs.take(1)));
        }
        while j < lines.len()
            invariant
                vs == views_of(lines@),
                1 <= j <= vs.len(),
                1 <= row_count <= j,
                nodes >= 1,
                line_valid(vs[0]),
                nodes == line_bits(vs[0]).len(),
                row_count as int == row_lines(vs.take(j as int)).len(),
                matrix_rows_ok(row_lines(vs.take(j as int)), nodes as int),
                adjacency@ == matrix_bits(vs.take(j as int)),
                adjacency@.len() == row_count * nodes,
            decreases vs.len() - j,
        {
            broadcast use vstd::prelude::Seq::lemma_filter_push;

            let ghost pre = vs.take(j as int);
            let ghost prows = row_lines(pre);
            proof {
                assert(vs.take(j as int + 1) =~= pre.push(vs[j as int]));
                assert(pre.push(vs[j as int]).skip(1) =~= pre.skip(1).push(vs[j as int]));
            }
            let mut tmp: Vec<bool> = Vec::new();
            match Graph::parse_line(lines[j].as_str(), &mut tmp) {
                Err(GraphError::EmptyRow) => {
                    proof {
                        assert(!nonblank()(vs[j as int]));
                        assert(row_lines(vs.take(j as int + 1)) =~= prows);
                    }
                },
                Err(e) => {
                    proof {
                        assert(e is InvalidCharacter);
                        assert(!line_valid(vs[j as int]));
                        assert(bit_chars(vs[j as int]).len() > 0);
                        vs.skip(1).lemma_filter_contains(nonblank(), j - 1);
                        let rr = choose|rr: int|
                            0 <= rr < vs.skip(1).filter(nonblank()).len()
                                && vs.skip(1).filter(nonblank())[rr] == vs[j as int];
                        assert(row_lines(vs)[1 + rr] == vs[j as int]);
                        assert(!matrix_ok(vs));
                    }
                    return Err(e);
                },
                Ok(c) => {
                    if c != nodes {
                        proof {
                            assert(nonblank()(vs[j as int]));
                            vs.skip(1).lemma_filter_contains(nonblank(), j - 1);
                            let rr = choose|rr: int|
                                0 <= rr < vs.skip(1).filter(nonblank()).len()
                                    && vs.skip(1).filter(nonblank())[rr] == vs[j as int];
                            assert(row_lines(vs)[1 + rr] == vs[j as int]);
                            assert(!matrix_ok(vs));
                        }
                        return Err(GraphError::UnequalRowLengths);
                    }
                    let ghost prev_adj = adjacency@;
                    adjacency.append(&mut tmp);
                    row_count = row_count + 1;
                    proof {
                        assert(nonblank()(vs[j as int]));
                        assert(row_lines(vs.take(j as int + 1))
                            =~= prows.push(vs[j as int]));
                        lemma_matrix_bits_push(prows, vs[j as int]);
                        assert(adjacency@ == matrix_bits(vs.take(j as int + 1)));
                        assert(row_count * nodes == (row_count - 1) * nodes + nodes)
                            by (nonlinear_arith);
                        assert forall|rr: int|
                            0 <= rr < row_lines(vs.take(j as int + 1)).len() implies
                            line_valid(#[trigger] row_lines(vs.take(j as int + 1))[rr])
                                && line_bits(row_lines(vs.take(j as int + 1))[rr]).len()
                                    == nodes as int by {
                            if rr < prows.len() {
                                assert(row_lines(vs.take(j as int + 1))[rr] == prows[rr]);
                            } else {
                                assert(row_lines(vs.take(j as int + 1))[rr]
                                    == vs[j as int]);
                            }
                        }
                    }
                },
            }
            j = j + 1;
        }
        proof {
            assert(vs.take(vs.len() as int) =~= vs);
        }
        if row_count != nodes {
            proof {
                assert(row_lines(vs).len() != line_bits(vs[0]).len());
            }
            return Err(GraphError::NotSquare);
        }
        let g = Graph { nodes_count: nodes, adjacency };
        proof {
            assert(g.wf()) by {
                assert(g.adj().len() == row_count * nodes);
            }
            assert(matrix_ok(vs));
        }
        Ok(g)
    }
}

} // verus!
