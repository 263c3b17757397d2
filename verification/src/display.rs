//! A picture of a tree in lines of text.
//!
//! Every node is drawn as a label: its key, an `x`, the sum of the sizes
//! resting at it, a `/`, and the number of its orders. A node stands above
//! its children; a rule of underscores runs from the label to the place
//! above each child, and a slash under the end of the rule points at it.

use vstd::prelude::*;
use vstd::string::*;
use crate::avl_tree::AVLTree;
use crate::links::{Node, linked, lemma_linked_housed};
use crate::order::Price;
use crate::levels::LevelRow;
use crate::order_stack::total_size;
use crate::shape::{Shape, lemma_shape_fits};

verus! {

/// The character of a decimal digit.
pub open spec fn digit(value: nat) -> char {
    if value == 0 {
        '0'
    } else if value == 1 {
        '1'
    } else if value == 2 {
        '2'
    } else if value == 3 {
        '3'
    } else if value == 4 {
        '4'
    } else if value == 5 {
        '5'
    } else if value == 6 {
        '6'
    } else if value == 7 {
        '7'
    } else if value == 8 {
        '8'
    } else {
        '9'
    }
}

/// A number in decimal digits, without leading zeros.
pub open spec fn decimal(value: nat) -> Seq<char>
    decreases value,
{
    if value < 10 {
        seq![digit(value)]
    } else {
        decimal(value / 10).push(digit(value % 10))
    }
}

/// A run of one character.
pub open spec fn run(piece: char, count: nat) -> Seq<char> {
    Seq::new(count, |i: int| piece)
}

/// The label of a level: key, `x`, sum of sizes, `/`, number of orders.
pub open spec fn label(key: Price, size: nat, count: nat) -> Seq<char> {
    decimal(key as nat) + seq!['x'] + decimal(size) + seq!['/'] + decimal(count)
}

/// The label of a node.
pub open spec fn node_label(node: Node) -> Seq<char> {
    label(node.key, total_size(node.value@), node.value@.len())
}

/// The line at `row` of a picture of the given width; blank below its last line.
pub open spec fn row_of(lines: Seq<Seq<char>>, width: nat, row: int) -> Seq<char> {
    if row < lines.len() {
        lines[row]
    } else {
        run(' ', width)
    }
}

/// Two pictures side by side with a gap between them, the shorter one
/// continued by blank lines.
pub open spec fn side_by_side(
    left: Seq<Seq<char>>,
    left_width: nat,
    right: Seq<Seq<char>>,
    right_width: nat,
    gap: nat,
) -> Seq<Seq<char>> {
    Seq::new(
        if left.len() >= right.len() {
            left.len()
        } else {
            right.len()
        },
        |row: int| row_of(left, left_width, row) + run(' ', gap) + row_of(right, right_width, row),
    )
}

/// A picture: its lines, their width, and the column of the top label's middle.
pub struct Picture {
    pub lines: Seq<Seq<char>>,
    pub width: nat,
    pub middle: nat,
}

/// The top line of a picture: the label with a rule of underscores to the
/// place above each child. `left` and `right` are the pictures of the two
/// sides, empty where a side is missing.
pub open spec fn rule_text(left: Picture, text: Seq<char>, right: Picture) -> Seq<char> {
    (if left.width > 0 {
        run(' ', left.middle + 1) + run('_', (left.width - left.middle - 1) as nat)
    } else {
        Seq::empty()
    }) + text + (if right.width > 0 {
        run('_', right.middle) + run(' ', (right.width - right.middle) as nat)
    } else {
        Seq::empty()
    })
}

/// The second line of a picture: a slash above the middle of each child.
pub open spec fn slash_text(left: Picture, gap: nat, right: Picture) -> Seq<char> {
    (if left.width > 0 {
        run(' ', left.middle) + seq!['/'] + run(' ', (left.width - left.middle - 1) as nat)
    } else {
        Seq::empty()
    }) + run(' ', gap) + (if right.width > 0 {
        run(' ', right.middle) + seq!['\\'] + run(' ', (right.width - right.middle - 1) as nat)
    } else {
        Seq::empty()
    })
}

/// The picture of what the arena holds at the slots of an outline: nothing
/// for an empty outline, the label alone for a node without children, and
/// else the label with its rule, the slashes, and below them the pictures of
/// the two sides, side by side with the width of the label between them.
pub open spec fn draw(nodes: Seq<Node>, t: Shape) -> Picture
    decreases t,
{
    match t {
        Shape::Leaf => Picture { lines: Seq::empty(), width: 0, middle: 0 },
        Shape::Fork { left, at, right } => {
            let text = node_label(nodes[at as int]);
            let l = draw(nodes, *left);
            let r = draw(nodes, *right);
            Picture {
                lines: if l.width == 0 && r.width == 0 {
                    seq![text]
                } else {
                    seq![rule_text(l, text, r), slash_text(l, text.len(), r)] + side_by_side(
                        l.lines,
                        l.width,
                        r.lines,
                        r.width,
                        text.len(),
                    )
                },
                width: l.width + text.len() + r.width,
                middle: l.width + text.len() / 2,
            }
        },
    }
}

/// The character sequences of a list of strings.
pub open spec fn texts(lines: Seq<String>) -> Seq<Seq<char>> {
    Seq::new(lines.len(), |i: int| lines[i]@)
}

/// The text of one decimal digit.
fn digit_text(value: u128) -> (text: &'static str)
    requires
        value < 10,
    ensures
        text@ == seq![digit(value as nat)],
{
    proof {
        reveal_strlit("0");
        reveal_strlit("1");
        reveal_strlit("2");
        reveal_strlit("3");
        reveal_strlit("4");
        reveal_strlit("5");
        reveal_strlit("6");
        reveal_strlit("7");
        reveal_strlit("8");
        reveal_strlit("9");
    }
    let text = if value == 0 {
        "0"
    } else if value == 1 {
        "1"
    } else if value == 2 {
        "2"
    } else if value == 3 {
        "3"
    } else if value == 4 {
        "4"
    } else if value == 5 {
        "5"
    } else if value == 6 {
        "6"
    } else if value == 7 {
        "7"
    } else if value == 8 {
        "8"
    } else {
        "9"
    };
    assert(text@ =~= seq![digit(value as nat)]);
    text
}

/// Writes a number in decimal digits behind what `out` holds.
pub fn write_decimal(out: &mut String, value: u128)
    ensures
        final(out)@ == old(out)@ + decimal(value as nat),
    decreases value,
{
    if value >= 10 {
        write_decimal(out, value / 10);
    }
    out.append(digit_text(value % 10));
    proof {
        if value >= 10 {
            assert(out@ =~= old(out)@ + decimal(value as nat));
        } else {
            assert(out@ =~= old(out)@ + decimal(value as nat));
        }
    }
}

/// Writes a run of `count` times the one character of `piece` behind what
/// `out` holds.
fn write_run(out: &mut String, piece: &str, count: u128, Ghost(mark): Ghost<char>)
    requires
        piece@ == seq![mark],
    ensures
        final(out)@ == old(out)@ + run(mark, count as nat),
{
    let mut done: u128 = 0;
    while done < count
        invariant
            done <= count,
            piece@ == seq![mark],
            out@ == old(out)@ + run(mark, done as nat),
        decreases count - done,
    {
        out.append(piece);
        done = done + 1;
        proof {
            assert(out@ =~= old(out)@ + run(mark, done as nat));
        }
    }
}

/// The label of a node and the number of its characters.
fn label_of(node: &Node) -> (made: (String, usize))
    ensures
        made.0@ == node_label(*node),
        made.1 == made.0@.len(),
        made.1 >= 1,
{
    let mut text = String::new();
    write_decimal(&mut text, node.key as u128);
    proof {
        reveal_strlit("x");
        reveal_strlit("/");
    }
    text.append("x");
    write_decimal(&mut text, node.value.size());
    text.append("/");
    write_decimal(&mut text, node.value.len() as u128);
    proof {
        assert("x"@ =~= seq!['x']);
        assert("/"@ =~= seq!['/']);
        assert(text@ =~= node_label(*node));
    }
    let length = text.as_str().unicode_len();
    (text, length)
}

/// Appends two pictures side by side, with a gap between them, to `lines`.
fn append_rows(
    lines: &mut Vec<String>,
    left: &Vec<String>,
    left_width: u128,
    right: &Vec<String>,
    right_width: u128,
    gap: u128,
)
    ensures
        texts(final(lines)@) == texts(old(lines)@) + side_by_side(
            texts(left@),
            left_width as nat,
            texts(right@),
            right_width as nat,
            gap as nat,
        ),
{
    let rows = if left.len() >= right.len() {
        left.len()
    } else {
        right.len()
    };
    let ghost wanted = side_by_side(
        texts(left@),
        left_width as nat,
        texts(right@),
        right_width as nat,
        gap as nat,
    );
    proof {
        reveal_strlit(" ");
        assert(" "@ =~= seq![' ']);
    }
    let mut row: usize = 0;
    while row < rows
        invariant
            row <= rows,
            rows == wanted.len(),
            " "@ == seq![' '],
            wanted == side_by_side(
                texts(left@),
                left_width as nat,
                texts(right@),
                right_width as nat,
                gap as nat,
            ),
            texts(lines@) == texts(old(lines)@) + wanted.take(row as int),
        decreases rows - row,
    {
        let mut line = String::new();
        if row < left.len() {
            line.append(left[row].as_str());
        } else {
            write_run(&mut line, " ", left_width, Ghost(' '));
        }
        write_run(&mut line, " ", gap, Ghost(' '));
        if row < right.len() {
            line.append(right[row].as_str());
        } else {
            write_run(&mut line, " ", right_width, Ghost(' '));
        }
        proof {
            assert(line@ =~= wanted[row as int]);
        }
        let ghost earlier = lines@;
        lines.push(line);
        row = row + 1;
        proof {
            assert(texts(lines@) =~= texts(earlier).push(line@));
            assert(wanted.take(row as int) =~= wanted.take(row - 1).push(wanted[row - 1]));
            assert(texts(lines@) =~= texts(old(lines)@) + wanted.take(row as int));
        }
    }
    proof {
        assert(wanted.take(rows as int) =~= wanted);
    }
}

/// Writes the rule that leads to the left child and the blanks before it.
fn write_left_rule(out: &mut String, width: u128, middle: u128)
    requires
        middle < width,
    ensures
        final(out)@ == old(out)@ + run(' ', (middle + 1) as nat) + run(
            '_',
            (width - middle - 1) as nat,
        ),
{
    proof {
        reveal_strlit(" ");
        reveal_strlit("_");
        assert(" "@ =~= seq![' ']);
        assert("_"@ =~= seq!['_']);
    }
    write_run(out, " ", middle + 1, Ghost(' '));
    write_run(out, "_", width - middle - 1, Ghost('_'));
}

/// Writes the rule that leads to the right child and the blanks behind it.
fn write_right_rule(out: &mut String, width: u128, middle: u128)
    requires
        middle < width,
    ensures
        final(out)@ == old(out)@ + run('_', middle as nat) + run(' ', (width - middle) as nat),
{
    proof {
        reveal_strlit(" ");
        reveal_strlit("_");
        assert(" "@ =~= seq![' ']);
        assert("_"@ =~= seq!['_']);
    }
    write_run(out, "_", middle, Ghost('_'));
    write_run(out, " ", width - middle, Ghost(' '));
}

/// Writes blanks with one mark above the middle of a child.
fn write_slash(out: &mut String, width: u128, middle: u128, piece: &str, Ghost(mark): Ghost<char>)
    requires
        middle < width,
        piece@ == seq![mark],
    ensures
        final(out)@ == old(out)@ + run(' ', middle as nat) + seq![mark] + run(
            ' ',
            (width - middle - 1) as nat,
        ),
{
    proof {
        reveal_strlit(" ");
        assert(" "@ =~= seq![' ']);
    }
    write_run(out, " ", middle, Ghost(' '));
    out.append(piece);
    write_run(out, " ", width - middle - 1, Ghost(' '));
}

/// The two lines on top of the picture of a node with a child.
fn head_lines(
    left_width: u128,
    left_middle: u128,
    text: &String,
    gap: u128,
    right_width: u128,
    right_middle: u128,
    Ghost(left): Ghost<Picture>,
    Ghost(right): Ghost<Picture>,
) -> (head: (String, String))
    requires
        left.width == left_width,
        left.middle == left_middle,
        right.width == right_width,
        right.middle == right_middle,
        left_width > 0 ==> left_middle < left_width,
        right_width > 0 ==> right_middle < right_width,
        gap == text@.len(),
    ensures
        head.0@ == rule_text(left, text@, right),
        head.1@ == slash_text(left, gap as nat, right),
{
    proof {
        reveal_strlit(" ");
        reveal_strlit("/");
        reveal_strlit("\\");
        assert(" "@ =~= seq![' ']);
        assert("/"@ =~= seq!['/']);
        assert("\\"@ =~= seq!['\\']);
    }
    let mut first = String::new();
    let mut second = String::new();
    if left_width > 0 {
        write_left_rule(&mut first, left_width, left_middle);
        write_slash(&mut second, left_width, left_middle, "/", Ghost('/'));
    }
    first.append(text.as_str());
    write_run(&mut second, " ", gap, Ghost(' '));
    if right_width > 0 {
        write_right_rule(&mut first, right_width, right_middle);
        write_slash(&mut second, right_width, right_middle, "\\", Ghost('\\'));
    }
    proof {
        assert(first@ =~= rule_text(left, text@, right));
        assert(second@ =~= slash_text(left, gap as nat, right));
    }
    (first, second)
}

/// Draws what hangs below `link`. Returns the lines of the picture, their
/// width and the column of the middle of the top label.
pub(crate) fn display_aux(
    nodes: &Vec<Node>,
    link: Option<usize>,
    Ghost(t): Ghost<Shape>,
    Ghost(parent): Ghost<Option<usize>>,
) -> (drawn: (Vec<String>, u128, u128))
    requires
        linked(nodes@, t, parent),
        t.root() == link,
        t.distinct(),
    ensures
        texts(drawn.0@) == draw(nodes@, t).lines,
        drawn.1 == draw(nodes@, t).width,
        drawn.2 == draw(nodes@, t).middle,
        t is Fork ==> drawn.2 < drawn.1,
        t is Leaf ==> drawn.1 == 0,
        drawn.1 <= t.size() * usize::MAX,
    decreases t,
{
    let at = match link {
        None => {
            let lines: Vec<String> = Vec::new();
            proof {
                assert(texts(lines@) =~= Seq::<Seq<char>>::empty());
            }
            return (lines, 0, 0);
        },
        Some(at) => at,
    };
    let ghost l = t.left();
    let ghost r = t.right();
    proof {
        lemma_linked_housed(nodes@, t, parent);
        lemma_shape_fits(t, nodes@.len());
        assert(nodes@.len() == nodes.len());
        assert(linked(nodes@, l, Some(at)));
        assert(linked(nodes@, r, Some(at)));
        assert(t.size() == 1 + l.size() + r.size());
        lemma_sizes_fit(l.size(), r.size());
    }
    let (text, length) = label_of(&nodes[at]);
    let gap = length as u128;
    let (left_lines, left_width, left_middle) = display_aux(
        nodes,
        nodes[at].left,
        Ghost(l),
        Ghost(Some(at)),
    );
    let (right_lines, right_width, right_middle) = display_aux(
        nodes,
        nodes[at].right,
        Ghost(r),
        Ghost(Some(at)),
    );
    let mut lines: Vec<String> = Vec::new();
    if left_width == 0 && right_width == 0 {
        lines.push(text);
        proof {
            assert(texts(lines@) =~= seq![node_label(nodes@[at as int])]);
        }
    } else {
        let (first, second) = head_lines(
            left_width,
            left_middle,
            &text,
            gap,
            right_width,
            right_middle,
            Ghost(draw(nodes@, l)),
            Ghost(draw(nodes@, r)),
        );
        lines.push(first);
        lines.push(second);
        proof {
            assert(texts(lines@) =~= seq![first@, second@]);
        }
        append_rows(&mut lines, &left_lines, left_width, &right_lines, right_width, gap);
    }
    (lines, left_width + gap + right_width, left_width + gap / 2)
}

/// The widths of the pictures of two sides and of one label fit in 128 bits.
proof fn lemma_sizes_fit(left: nat, right: nat)
    requires
        left + right + 1 <= usize::MAX,
    ensures
        (left + right + 1) * usize::MAX == left * usize::MAX + right * usize::MAX + usize::MAX,
        left * usize::MAX + right * usize::MAX + usize::MAX <= 0xffff_ffff_ffff_ffff
            * 0xffff_ffff_ffff_ffff,
{
    assert((left + right + 1) * usize::MAX == left * usize::MAX + right * usize::MAX + usize::MAX)
        by (nonlinear_arith);
    assert((left + right + 1) * usize::MAX <= 0xffff_ffff_ffff_ffff * 0xffff_ffff_ffff_ffff)
        by (nonlinear_arith)
        requires
            left + right + 1 <= usize::MAX,
            usize::MAX <= 0xffff_ffff_ffff_ffff,
    ;
}

impl AVLTree {
    /// The lines of the picture of the tree; none for an empty tree.
    pub closed spec fn picture(&self) -> Seq<Seq<char>> {
        draw(self.nodes@, self.shape@).lines
    }

    /// Draws the tree in lines of text.
    pub fn display(&self) -> (lines: Vec<String>)
        requires
            self.wf(),
        ensures
            texts(lines@) == self.picture(),
    {
        proof {
            self.lemma_wf();
        }
        match self.root {
            None => {
                let lines: Vec<String> = Vec::new();
                proof {
                    assert(texts(lines@) =~= Seq::<Seq<char>>::empty());
                }
                lines
            },
            Some(top) => {
                let (lines, _, _) = display_aux(&self.nodes, Some(top), Ghost(self.shape@), Ghost(None));
                lines
            },
        }
    }
}

/// One row of a depth table in text: price, size and money in brackets.
pub open spec fn row_text(row: LevelRow) -> Seq<char> {
    seq!['('] + decimal(row.price as nat) + seq![',', ' '] + decimal(row.size) + seq![',', ' ']
        + decimal(row.notional) + seq![')']
}

/// The rows of a depth table in text, with a comma and a blank between rows.
pub open spec fn rows_body(rows: Seq<LevelRow>) -> Seq<char>
    decreases rows.len(),
{
    if rows.len() == 0 {
        Seq::empty()
    } else if rows.len() == 1 {
        row_text(rows[0])
    } else {
        rows_body(rows.drop_last()) + seq![',', ' '] + row_text(rows.last())
    }
}

/// A depth table in text: its rows in square brackets.
pub open spec fn rows_text(rows: Seq<LevelRow>) -> Seq<char> {
    seq!['['] + rows_body(rows) + seq![']']
}

/// Lines put together, with a line break between one line and the next.
pub open spec fn join_lines(lines: Seq<Seq<char>>) -> Seq<char>
    decreases lines.len(),
{
    if lines.len() == 0 {
        Seq::empty()
    } else if lines.len() == 1 {
        lines[0]
    } else {
        join_lines(lines.drop_last()) + seq!['\n'] + lines.last()
    }
}

/// Writes a depth table in text behind what `out` holds.
pub fn write_rows(out: &mut String, rows: &Vec<(Price, u128, u128)>)
    ensures
        final(out)@ == old(out)@ + rows_text(crate::levels::rows_view(rows@)),
{
    let ghost table = crate::levels::rows_view(rows@);
    proof {
        reveal_strlit("[");
        reveal_strlit("]");
        reveal_strlit("(");
        reveal_strlit(")");
        reveal_strlit(", ");
        assert("["@ =~= seq!['[']);
        assert("]"@ =~= seq![']']);
        assert("("@ =~= seq!['(']);
        assert(")"@ =~= seq![')']);
        assert(", "@ =~= seq![',', ' ']);
    }
    out.append("[");
    let mut at: usize = 0;
    while at < rows.len()
        invariant
            at <= rows@.len(),
            table == crate::levels::rows_view(rows@),
            table.len() == rows@.len(),
            "("@ == seq!['('],
            ")"@ == seq![')'],
            ", "@ == seq![',', ' '],
            out@ == old(out)@ + seq!['['] + rows_body(table.take(at as int)),
        decreases rows@.len() - at,
    {
        let ghost earlier = out@;
        if at > 0 {
            out.append(", ");
        }
        out.append("(");
        write_decimal(out, rows[at].0 as u128);
        out.append(", ");
        write_decimal(out, rows[at].1);
        out.append(", ");
        write_decimal(out, rows[at].2);
        out.append(")");
        proof {
            let next = table.take(at + 1);
            assert(next.drop_last() =~= table.take(at as int));
            assert(next.last() == table[at as int]);
            assert(table[at as int] == crate::levels::row_view(rows@[at as int]));
            if at == 0 {
                assert(rows_body(table.take(0)) =~= Seq::<char>::empty());
                assert(next[0] == table[0]);
                assert(out@ =~= earlier + row_text(table[0]));
            } else {
                assert(out@ =~= earlier + seq![',', ' '] + row_text(table[at as int]));
            }
            assert(out@ =~= old(out)@ + seq!['['] + rows_body(next));
        }
        at = at + 1;
    }
    out.append("]");
    proof {
        assert(table.take(at as int) =~= table);
        assert(out@ =~= old(out)@ + rows_text(table));
    }
}

/// Puts lines together, with a line break between one line and the next.
pub fn join(lines: &Vec<String>) -> (text: String)
    ensures
        text@ == join_lines(texts(lines@)),
{
    let ghost all = texts(lines@);
    proof {
        reveal_strlit("\n");
        assert("\n"@ =~= seq!['\n']);
    }
    let mut text = String::new();
    let mut at: usize = 0;
    while at < lines.len()
        invariant
            at <= lines@.len(),
            all == texts(lines@),
            "\n"@ == seq!['\n'],
            text@ == join_lines(all.take(at as int)),
        decreases lines@.len() - at,
    {
        if at > 0 {
            text.append("\n");
        }
        text.append(lines[at].as_str());
        proof {
            let next = all.take(at + 1);
            assert(next.drop_last() =~= all.take(at as int));
            assert(next.last() == lines@[at as int]@);
            if at == 0 {
                assert(next[0] == lines@[0]@);
                assert(join_lines(all.take(0)) =~= Seq::<char>::empty());
                assert(text@ =~= lines@[0]@);
            }
        }
        at = at + 1;
    }
    proof {
        assert(all.take(at as int) =~= all);
    }
    text
}

} // verus!
