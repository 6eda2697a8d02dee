//! The desert network: nodes with a left and a right exit, a list of turns
//! to take over and over, and the number of steps to the end.

use vstd::prelude::*;
use crate::pattern::{find, group, group_text, groups_view, matched};
use crate::text::{chars_of, lines, lines_of, slice, string_of, texts_view};

verus! {

/// Why a network was not understood, or why no way through it was found.
#[derive(Debug, Clone, Copy, PartialEq, Eq, Structural)]
pub enum NetworkError {
    /// The text has no line of turns.
    NoDirectionLine,
    /// The text has no line between the turns and the nodes.
    NoSeparatorLine,
    /// A line is not a node with its two exits.
    InvalidNodeLine,
    /// The text lists no node.
    NoNodes,
    /// The way leads to a node that the network does not list.
    InvalidNode,
    /// There are steps to take but no turns to take them by.
    NoDirections,
    /// The end was not reached within the steps allowed.
    NoPath,
    /// No way starts at a node whose name ends in `A`.
    NoStart,
    /// The number of steps passes the largest number of the machine.
    Overflow,
}

/// A turn.
#[derive(Debug, Clone, Copy, PartialEq, Eq, Structural)]
pub enum Direction {
    Left,
    Right,
}

/// A node as written: its name and the names of its two exits.
#[derive(Debug, Clone, PartialEq)]
pub struct Node {
    pub name: String,
    pub left: String,
    pub right: String,
}

/// A node as plain values.
pub struct NodeView {
    pub name: Seq<char>,
    pub left: Seq<char>,
    pub right: Seq<char>,
}

impl View for Node {
    type V = NodeView;

    open spec fn view(&self) -> NodeView {
        NodeView { name: self.name@, left: self.left@, right: self.right@ }
    }
}

/// A node of the table of a network. The table is a list that is searched
/// by name, in which no name stands twice: a name is text, and what vstd
/// states of a hash map holds only for keys whose hashing it models, which
/// are the integers.
pub struct Entry {
    name: Vec<char>,
    left: Vec<char>,
    right: Vec<char>,
}

impl View for Entry {
    type V = NodeView;

    closed spec fn view(&self) -> NodeView {
        NodeView { name: self.name@, left: self.left@, right: self.right@ }
    }
}

/// The pattern of a node line.
pub open spec fn node_pattern() -> Seq<char> {
    r"^(?<name>\w+) = \((?<left>\w+), (?<right>\w+)\)$"@
}

/// The node that a match of the node pattern writes in its three groups.
pub open spec fn node_in(found: Option<Seq<Option<Seq<char>>>>) -> Result<NodeView, NetworkError> {
    match found {
        Some(groups) => if group_text(groups, 1) is Some && group_text(groups, 2) is Some
            && group_text(groups, 3) is Some {
            Ok(
                NodeView {
                    name: group_text(groups, 1)->0,
                    left: group_text(groups, 2)->0,
                    right: group_text(groups, 3)->0,
                },
            )
        } else {
            Err(NetworkError::InvalidNodeLine)
        },
        None => Err(NetworkError::InvalidNodeLine),
    }
}

/// The position of the first node of the table with the given name.
pub open spec fn position(table: Seq<NodeView>, name: Seq<char>, from: int) -> Option<int>
    decreases table.len() - from,
{
    if from < 0 || from >= table.len() {
        None
    } else if table[from].name == name {
        Some(from)
    } else {
        position(table, name, from + 1)
    }
}

/// The table with one more node entered: it takes the place of the node of
/// the same name, or the last place when there is no such node.
pub open spec fn entered(table: Seq<NodeView>, node: NodeView) -> Seq<NodeView> {
    match position(table, node.name, 0) {
        Some(k) => table.update(k, node),
        None => table.push(node),
    }
}

/// Whether no two nodes of the table have the same name.
pub open spec fn distinct_names(table: Seq<NodeView>) -> bool {
    forall|i: int, j: int| 0 <= i < j < table.len() ==> table[i].name != table[j].name
}

/// What the position found says of the table: the node there has the name,
/// and where none is found no node from `from` on has it.
pub proof fn lemma_position(table: Seq<NodeView>, name: Seq<char>, from: int)
    requires
        0 <= from,
    ensures
        match position(table, name, from) {
            Some(k) => from <= k < table.len() && table[k].name == name,
            None => forall|j: int| from <= j < table.len() ==> (#[trigger] table[j]).name != name,
        },
    decreases table.len() - from,
{
    if from < table.len() && table[from].name != name {
        lemma_position(table, name, from + 1);
    }
}

/// A table without a name twice has none twice after a node was entered.
pub proof fn lemma_entered_distinct(table: Seq<NodeView>, node: NodeView)
    requires
        distinct_names(table),
    ensures
        distinct_names(entered(table, node)),
{
    lemma_position(table, node.name, 0);
}

/// The turns that the first `n` characters of a line write: `L` and `R`,
/// any other character passed over.
pub open spec fn turns_of(line: Seq<char>, n: int) -> Seq<Direction>
    decreases n,
{
    if n <= 0 {
        seq![]
    } else if line[n - 1] == 'L' {
        turns_of(line, n - 1).push(Direction::Left)
    } else if line[n - 1] == 'R' {
        turns_of(line, n - 1).push(Direction::Right)
    } else {
        turns_of(line, n - 1)
    }
}

/// A network as plain values.
pub struct NetworkView {
    pub table: Seq<NodeView>,
    pub first_node: Seq<char>,
    pub directions: Seq<Direction>,
}

/// The table of the nodes that the lines from the third to the `n`-th
/// write, each entered in turn.
pub open spec fn table_of(lines: Seq<Seq<char>>, n: int) -> Result<Seq<NodeView>, NetworkError>
    decreases n,
{
    if n <= 2 {
        Ok(seq![])
    } else {
        match table_of(lines, n - 1) {
            Err(e) => Err(e),
            Ok(table) => match node_in(matched(node_pattern(), lines[n - 1])) {
                Err(e) => Err(e),
                Ok(node) => Ok(entered(table, node)),
            },
        }
    }
}

/// No name stands twice in the table that lines write.
pub proof fn lemma_table_distinct(lines: Seq<Seq<char>>, n: int)
    ensures
        table_of(lines, n) is Ok ==> distinct_names(table_of(lines, n)->Ok_0),
    decreases n,
{
    if n > 2 {
        lemma_table_distinct(lines, n - 1);
        if table_of(lines, n) is Ok {
            lemma_entered_distinct(
                table_of(lines, n - 1)->Ok_0,
                node_in(matched(node_pattern(), lines[n - 1]))->Ok_0,
            );
        }
    }
}

/// The network that a text writes: a line of turns, a line that is passed
/// over, and a line for every node.
pub open spec fn network_of(text: Seq<char>) -> Result<NetworkView, NetworkError> {
    let lines = lines_of(text);
    if lines.len() < 1 {
        Err(NetworkError::NoDirectionLine)
    } else if lines.len() < 2 {
        Err(NetworkError::NoSeparatorLine)
    } else {
        match table_of(lines, lines.len() as int) {
            Err(e) => Err(e),
            Ok(table) => if lines.len() < 3 {
                Err(NetworkError::NoNodes)
            } else {
                match node_in(matched(node_pattern(), lines[2])) {
                    Err(e) => Err(e),
                    Ok(first) => Ok(
                        NetworkView {
                            table,
                            first_node: first.name,
                            directions: turns_of(lines[0], lines[0].len() as int),
                        },
                    ),
                }
            },
        }
    }
}

/// The name that follows `name` at step `step`: the left or the right exit
/// of its node, by the turn whose time has come.
pub open spec fn next_name(net: NetworkView, name: Seq<char>, step: int) -> Result<
    Seq<char>,
    NetworkError,
> {
    match position(net.table, name, 0) {
        None => Err(NetworkError::InvalidNode),
        Some(k) => if net.directions.len() == 0 {
            Err(NetworkError::NoDirections)
        } else {
            match net.directions[step % (net.directions.len() as int)] {
                Direction::Left => Ok(net.table[k].left),
                Direction::Right => Ok(net.table[k].right),
            }
        },
    }
}

/// The number of steps at which a traveller who is at `name` after `step`
/// steps arrives at `ZZZ`, with `max_steps` steps allowed in all.
pub open spec fn steps_to_end(net: NetworkView, name: Seq<char>, step: int, max_steps: int) -> Result<
    usize,
    NetworkError,
>
    decreases max_steps - step,
{
    if name == "ZZZ"@ {
        Ok(step as usize)
    } else if step >= max_steps {
        Err(NetworkError::NoPath)
    } else {
        match next_name(net, name, step) {
            Err(e) => Err(e),
            Ok(next) => steps_to_end(net, next, step + 1, max_steps),
        }
    }
}

/// Whether the name ends in `c`.
pub open spec fn ends_in(name: Seq<char>, c: char) -> bool {
    name.len() > 0 && name.last() == c
}

/// The names among the first `n` of the table that end in `A`.
pub open spec fn starts_of(table: Seq<NodeView>, n: int) -> Seq<Seq<char>>
    decreases n,
{
    if n <= 0 {
        seq![]
    } else if ends_in(table[n - 1].name, 'A') {
        starts_of(table, n - 1).push(table[n - 1].name)
    } else {
        starts_of(table, n - 1)
    }
}

/// Whether `g` is the greatest common divisor of `a` and `b`.
pub open spec fn is_gcd(a: int, b: int, g: int) -> bool {
    &&& g > 0
    &&& a % g == 0
    &&& b % g == 0
    &&& forall|d: int| 0 < d && #[trigger] (a % d) == 0 && b % d == 0 ==> d <= g
}

/// The greatest common divisor of two numbers that are not both zero.
pub open spec fn gcd_of(a: int, b: int) -> int {
    choose|g: int| is_gcd(a, b, g)
}

/// The lowest common multiple of two numbers: zero if both are zero, else
/// the one times the part of the other that it does not share.
pub open spec fn lcm_of(a: int, b: int) -> int {
    if a == 0 && b == 0 {
        0
    } else {
        a * (b / gcd_of(a, b))
    }
}

/// Two numbers have one greatest common divisor.
pub proof fn lemma_gcd_unique(a: int, b: int, g: int)
    requires
        is_gcd(a, b, g),
    ensures
        gcd_of(a, b) == g,
{
    let h = gcd_of(a, b);
    assert(is_gcd(a, b, h));
    assert(a % g == 0);
    assert(a % h == 0);
}

/// The greatest common divisor, by `num::integer::gcd`.
///
/// The contract claims what the crate documents: the result divides both
/// numbers, and no larger number does; it is zero only if both are.
#[verifier::external_body]
pub(crate) fn gcd(a: usize, b: usize) -> (g: usize)
    ensures
        a == 0 && b == 0 ==> g == 0,
        !(a == 0 && b == 0) ==> is_gcd(a as int, b as int, g as int),
{
    num::integer::gcd(a, b)
}

/// The lowest common multiple, by `num::integer::lcm`.
///
/// The crate multiplies the one number by the other divided by their
/// greatest common divisor; the contract leaves out the numbers for which
/// that product passes the largest number, and claims the product.
#[verifier::external_body]
pub(crate) fn lcm(a: usize, b: usize) -> (m: usize)
    requires
        lcm_of(a as int, b as int) <= usize::MAX,
    ensures
        m == lcm_of(a as int, b as int),
{
    num::integer::lcm(a, b)
}

/// The lowest common multiple, or `None` when it passes the largest number
/// of the machine.
pub fn checked_lcm(a: usize, b: usize) -> (r: Option<usize>)
    ensures
        match r {
            Some(m) => m == lcm_of(a as int, b as int),
            None => lcm_of(a as int, b as int) > usize::MAX,
        },
{
    if a == 0 && b == 0 {
        return Some(lcm(a, b));
    }
    let g = gcd(a, b);
    proof {
        lemma_gcd_unique(a as int, b as int, g as int);
    }
    let q = b / g;
    if q != 0 && a > usize::MAX / q {
        proof {
            assert(a * q > usize::MAX) by (nonlinear_arith)
                requires
                    q > 0,
                    a > usize::MAX as int / q as int,
                    a >= 0,
            ;
        }
        return None;
    }
    proof {
        if q != 0 {
            assert(a * q <= usize::MAX) by (nonlinear_arith)
                requires
                    q > 0,
                    a <= usize::MAX as int / q as int,
                    a >= 0,
            ;
        } else {
            assert(a * q == 0) by (nonlinear_arith)
                requires
                    q == 0,
            ;
        }
    }
    Some(lcm(a, b))
}

/// The lowest common multiple of the first `n` numbers, found one number
/// after the other; `None` when a multiple on the way passes the largest
/// number of the machine.
pub open spec fn lcm_over(numbers: Seq<usize>, n: int) -> Option<usize>
    decreases n,
{
    if n <= 1 {
        Some(numbers[0])
    } else {
        match lcm_over(numbers, n - 1) {
            None => None,
            Some(before) => if lcm_of(before as int, numbers[n - 1] as int) <= usize::MAX {
                Some(lcm_of(before as int, numbers[n - 1] as int) as usize)
            } else {
                None
            },
        }
    }
}

/// The steps at which each traveller was first seen at a name that ends in
/// `Z`, brought up to date at step `step`: a traveller who is at such a
/// name and has no step noted yet gets this one.
pub open spec fn noted(names: Seq<Seq<char>>, first_z: Seq<usize>, step: int) -> Seq<usize> {
    Seq::new(
        first_z.len(),
        |i: int|
            if ends_in(names[i], 'Z') && first_z[i] == 0 {
                step as usize
            } else {
                first_z[i]
            },
    )
}

/// Whether the travellers are done: all are at a name that ends in `Z`, or
/// all have a step noted.
pub open spec fn all_seen(names: Seq<Seq<char>>, first_z: Seq<usize>) -> bool {
    (forall|i: int| 0 <= i < names.len() ==> ends_in(#[trigger] names[i], 'Z')) || (forall|i: int|
        0 <= i < first_z.len() ==> #[trigger] first_z[i] > 0)
}

/// The names that follow the first `n` names at step `step`.
pub open spec fn next_names(net: NetworkView, names: Seq<Seq<char>>, step: int, n: int) -> Result<
    Seq<Seq<char>>,
    NetworkError,
>
    decreases n,
{
    if n <= 0 {
        Ok(seq![])
    } else {
        match next_names(net, names, step, n - 1) {
            Err(e) => Err(e),
            Ok(front) => match next_name(net, names[n - 1], step) {
                Err(e) => Err(e),
                Ok(next) => Ok(front.push(next)),
            },
        }
    }
}

/// The number of steps after which the travellers who walk side by side are
/// all at the end of a round, taken as the lowest common multiple of the
/// steps at which each was first seen at a name that ends in `Z`.
pub open spec fn ghost_steps(
    net: NetworkView,
    names: Seq<Seq<char>>,
    first_z: Seq<usize>,
    step: int,
    max_steps: int,
) -> Result<usize, NetworkError>
    decreases max_steps - step,
{
    if step >= max_steps {
        Err(NetworkError::NoPath)
    } else {
        let seen = noted(names, first_z, step);
        if all_seen(names, seen) {
            if seen.len() == 0 {
                Err(NetworkError::NoStart)
            } else {
                match lcm_over(seen, seen.len() as int) {
                    Some(m) => Ok(m),
                    None => Err(NetworkError::Overflow),
                }
            }
        } else if net.directions.len() == 0 {
            Err(NetworkError::NoDirections)
        } else {
            match next_names(net, names, step, names.len() as int) {
                Err(e) => Err(e),
                Ok(next) => ghost_steps(net, next, seen, step + 1, max_steps),
            }
        }
    }
}

/// The views of the table of a network.
pub open spec fn table_view(table: Seq<Entry>) -> Seq<NodeView> {
    Seq::new(table.len(), |i: int| table[i]@)
}

/// A network: its nodes, the name of the node listed first, and the turns.
pub struct Network {
    table: Vec<Entry>,
    first_node: String,
    directions: Vec<Direction>,
}

impl View for Network {
    type V = NetworkView;

    closed spec fn view(&self) -> NetworkView {
        NetworkView {
            table: table_view(self.table@),
            first_node: self.first_node@,
            directions: self.directions@,
        }
    }
}

/// Whether two lists hold the same characters.
fn same_chars(a: &Vec<char>, b: &Vec<char>) -> (r: bool)
    ensures
        r == (a@ == b@),
{
    if a.len() != b.len() {
        return false;
    }
    let mut i: usize = 0;
    while i < a.len()
        invariant
            i <= a.len(),
            a.len() == b.len(),
            forall|k: int| 0 <= k < i ==> a[k] == b[k],
        decreases a.len() - i,
    {
        if a[i] != b[i] {
            assert(a@[i as int] != b@[i as int]);
            return false;
        }
        i += 1;
    }
    assert(a@ =~= b@);
    true
}

/// The position of the first node of the table with the given name.
fn locate(table: &Vec<Entry>, name: &Vec<char>) -> (r: Option<usize>)
    ensures
        match r {
            Some(k) => position(table_view(table@), name@, 0) == Some(k as int) && k < table.len(),
            None => position(table_view(table@), name@, 0) is None,
        },
{
    let ghost all = table_view(table@);
    let mut k: usize = 0;
    while k < table.len()
        invariant
            k <= table.len(),
            all == table_view(table@),
            position(all, name@, 0) == position(all, name@, k as int),
        decreases table.len() - k,
    {
        assert(all[k as int] == table[k as int]@);
        if same_chars(&table[k].name, name) {
            return Some(k);
        }
        k += 1;
    }
    None
}

impl Node {
    /// The node that a match of the node pattern writes.
    pub fn from_groups(groups: &Vec<Option<Vec<char>>>) -> (r: Result<Node, NetworkError>)
        ensures
            match r {
                Ok(node) => node_in(groups_view(Some(*groups))) == Ok::<NodeView, NetworkError>(
                    node@,
                ),
                Err(e) => node_in(groups_view(Some(*groups))) == Err::<NodeView, NetworkError>(e),
            },
    {
        let name = group(groups, 1);
        let left = group(groups, 2);
        let right = group(groups, 3);
        match (name, left, right) {
            (Some(n), Some(l), Some(r)) => Ok(
                Node { name: string_of(n), left: string_of(l), right: string_of(r) },
            ),
            _ => Err(NetworkError::InvalidNodeLine),
        }
    }

    /// Reads a node from a line such as `AAA = (BBB, CCC)`.
    pub fn parse(line: &str) -> (r: Result<Node, NetworkError>)
        ensures
            match r {
                Ok(node) => node_in(matched(node_pattern(), line@)) == Ok::<
                    NodeView,
                    NetworkError,
                >(node@),
                Err(e) => node_in(matched(node_pattern(), line@)) == Err::<
                    NodeView,
                    NetworkError,
                >(e),
            },
    {
        match find(r"^(?<name>\w+) = \((?<left>\w+), (?<right>\w+)\)$", line) {
            Some(groups) => Node::from_groups(&groups),
            None => Err(NetworkError::InvalidNodeLine),
        }
    }
}

impl std::str::FromStr for Node {
    type Err = NetworkError;

    fn from_str(s: &str) -> (r: Result<Node, NetworkError>)
        ensures
            match r {
                Ok(node) => node_in(matched(node_pattern(), s@)) == Ok::<NodeView, NetworkError>(
                    node@,
                ),
                Err(e) => node_in(matched(node_pattern(), s@)) == Err::<NodeView, NetworkError>(
                    e,
                ),
            },
    {
        Node::parse(s)
    }
}

/// A line that is no node ends the reading.
proof fn lemma_table_fails(lines: Seq<Seq<char>>, n: int, end: int)
    requires
        3 <= n <= end,
        table_of(lines, n) is Err,
    ensures
        table_of(lines, end) == table_of(lines, n),
    decreases end - n,
{
    if n < end {
        lemma_table_fails(lines, n, end - 1);
    }
}

impl Network {
    /// Number of nodes.
    pub fn node_count(&self) -> (n: usize)
        ensures
            n == self@.table.len(),
    {
        self.table.len()
    }

    /// The name of the node that the text lists first.
    pub fn first_node(&self) -> (name: &String)
        ensures
            name@ == self@.first_node,
    {
        &self.first_node
    }

    /// The turns.
    pub fn directions(&self) -> (turns: &Vec<Direction>)
        ensures
            turns@ == self@.directions,
    {
        &self.directions
    }

    /// Reads a network from text.
    pub fn parse(s: &str) -> (r: Result<Network, NetworkError>)
        ensures
            match r {
                Ok(net) => network_of(s@) == Ok::<NetworkView, NetworkError>(net@),
                Err(e) => network_of(s@) == Err::<NetworkView, NetworkError>(e),
            },
            r is Ok ==> distinct_names(r->Ok_0@.table),
    {
        let chars = chars_of(s);
        let all = lines(&chars);
        let ghost rows = texts_view(all@);
        proof {
            lemma_table_distinct(lines_of(s@), lines_of(s@).len() as int);
        }
        if all.len() < 1 {
            return Err(NetworkError::NoDirectionLine);
        }
        let mut directions: Vec<Direction> = Vec::new();
        let first_line = &all[0];
        assert(rows[0] == first_line@);
        let mut i: usize = 0;
        while i < first_line.len()
            invariant
                i <= first_line.len(),
                directions@ == turns_of(first_line@, i as int),
            decreases first_line.len() - i,
        {
            let c = first_line[i];
            if c == 'L' {
                directions.push(Direction::Left);
            } else if c == 'R' {
                directions.push(Direction::Right);
            }
            i += 1;
        }
        if all.len() < 2 {
            return Err(NetworkError::NoSeparatorLine);
        }
        let mut table: Vec<Entry> = Vec::new();
        let mut first_node: Option<String> = None;
        let mut k: usize = 2;
        assert(table_view(table@) =~= Seq::<NodeView>::empty());
        while k < all.len()
            invariant
                2 <= k <= all.len(),
                rows == texts_view(all@),
                rows == lines_of(s@),
                table_of(rows, k as int) == Ok::<Seq<NodeView>, NetworkError>(table_view(table@)),
                k == 2 ==> first_node is None,
                k > 2 ==> first_node is Some && node_in(matched(node_pattern(), rows[2])) is Ok
                    && first_node->0@ == node_in(matched(node_pattern(), rows[2]))->Ok_0.name,
            decreases all.len() - k,
        {
            let text = string_of(&all[k]);
            assert(rows[k as int] == text@);
            let node = match Node::parse(text.as_str()) {
                Ok(node) => node,
                Err(e) => {
                    proof {
                        lemma_table_fails(rows, k + 1, all.len() as int);
                    }
                    return Err(e);
                },
            };
            let name = chars_of(node.name.as_str());
            let left = chars_of(node.left.as_str());
            let right = chars_of(node.right.as_str());
            if first_node.is_none() {
                first_node = Some(string_of(&name));
            }
            let ghost before = table_view(table@);
            let entry = Entry { name, left, right };
            match locate(&table, &entry.name) {
                Some(at) => {
                    table[at] = entry;
                    assert(table_view(table@) =~= before.update(at as int, node@));
                },
                None => {
                    table.push(entry);
                    assert(table_view(table@) =~= before.push(node@));
                },
            }
            k += 1;
        }
        match first_node {
            Some(name) => Ok(Network { table, first_node: name, directions }),
            None => Err(NetworkError::NoNodes),
        }
    }

    /// The name that follows `name` at step `step`.
    fn follow(&self, name: &Vec<char>, step: usize) -> (r: Result<Vec<char>, NetworkError>)
        ensures
            match r {
                Ok(next) => next_name(self@, name@, step as int) == Ok::<Seq<char>, NetworkError>(
                    next@,
                ),
                Err(e) => next_name(self@, name@, step as int) == Err::<Seq<char>, NetworkError>(
                    e,
                ),
            },
    {
        match locate(&self.table, name) {
            None => Err(NetworkError::InvalidNode),
            Some(k) => {
                if self.directions.len() == 0 {
                    return Err(NetworkError::NoDirections);
                }
                let entry = &self.table[k];
                assert(table_view(self.table@)[k as int] == entry@);
                assert(entry.left@.subrange(0, entry.left@.len() as int) =~= entry.left@);
                assert(entry.right@.subrange(0, entry.right@.len() as int) =~= entry.right@);
                assert(self@.directions == self.directions@);
                assert(self@.table == table_view(self.table@));
                match self.directions[step % self.directions.len()] {
                    Direction::Left => Ok(slice(&entry.left, 0, entry.left.len())),
                    Direction::Right => Ok(slice(&entry.right, 0, entry.right.len())),
                }
            },
        }
    }

    /// The number of steps from `AAA` to `ZZZ`, turning as the turns say,
    /// over and over. Fails when the way leads to a node that is not
    /// listed, and when `max_steps` steps do not lead to the end.
    pub fn part1(&self, max_steps: usize) -> (r: Result<usize, NetworkError>)
        ensures
            r == steps_to_end(self@, "AAA"@, 0, max_steps as int),
    {
        let mut name = chars_of("AAA");
        let end = chars_of("ZZZ");
        let mut steps: usize = 0;
        loop
            invariant
                steps <= max_steps,
                end@ == "ZZZ"@,
                steps_to_end(self@, "AAA"@, 0, max_steps as int) == steps_to_end(
                    self@,
                    name@,
                    steps as int,
                    max_steps as int,
                ),
            decreases max_steps - steps,
        {
            if same_chars(&name, &end) {
                return Ok(steps);
            }
            if steps >= max_steps {
                return Err(NetworkError::NoPath);
            }
            match self.follow(&name, steps) {
                Ok(next) => {
                    name = next;
                },
                Err(e) => {
                    return Err(e);
                },
            }
            steps += 1;
        }
    }

    /// The names of the nodes that end in `A`, in the order of the table.
    pub fn starts(&self) -> (names: Vec<Vec<char>>)
        ensures
            texts_view(names@) == starts_of(self@.table, self@.table.len() as int),
    {
        let mut names: Vec<Vec<char>> = Vec::new();
        let ghost all = table_view(self.table@);
        let mut k: usize = 0;
        assert(texts_view(names@) =~= Seq::<Seq<char>>::empty());
        while k < self.table.len()
            invariant
                k <= self.table.len(),
                all == table_view(self.table@),
                texts_view(names@) == starts_of(all, k as int),
            decreases self.table.len() - k,
        {
            let entry = &self.table[k];
            assert(all[k as int] == entry@);
            let n = entry.name.len();
            if n > 0 && entry.name[n - 1] == 'A' {
                let ghost before = texts_view(names@);
                assert(entry.name@.subrange(0, n as int) =~= entry.name@);
                names.push(slice(&entry.name, 0, n));
                assert(texts_view(names@) =~= before.push(entry.name@));
            }
            k += 1;
        }
        names
    }

    /// The number of steps after which travellers who start at every node
    /// that ends in `A` and walk side by side are all at a node that ends
    /// in `Z`, taken as the lowest common multiple of the steps at which
    /// each of them first was.
    pub fn part2(&self, max_steps: usize) -> (r: Result<usize, NetworkError>)
        ensures
            ({
                let names = starts_of(self@.table, self@.table.len() as int);
                r == ghost_steps(
                    self@,
                    names,
                    Seq::new(names.len(), |i: int| 0usize),
                    0,
                    max_steps as int,
                )
            }),
    {
        let mut names = self.starts();
        let mut first_z: Vec<usize> = Vec::new();
        let mut i: usize = 0;
        while i < names.len()
            invariant
                i <= names.len(),
                first_z.len() == i,
                forall|k: int| 0 <= k < i ==> first_z[k] == 0,
            decreases names.len() - i,
        {
            first_z.push(0);
            i += 1;
        }
        let ghost start_names = texts_view(names@);
        assert(first_z@ =~= Seq::new(start_names.len(), |i: int| 0usize));
        let ghost goal = ghost_steps(self@, start_names, first_z@, 0, max_steps as int);
        let mut step: usize = 0;
        while step < max_steps
            invariant
                step <= max_steps,
                first_z.len() == names.len(),
                goal == ghost_steps(
                    self@,
                    starts_of(self@.table, self@.table.len() as int),
                    Seq::new(
                        starts_of(self@.table, self@.table.len() as int).len(),
                        |i: int| 0usize,
                    ),
                    0,
                    max_steps as int,
                ),
                goal == ghost_steps(
                    self@,
                    texts_view(names@),
                    first_z@,
                    step as int,
                    max_steps as int,
                ),
            decreases max_steps - step,
        {
            let ghost now = texts_view(names@);
            let ghost before = first_z@;
            let ghost seen = noted(now, before, step as int);
            let mut all_at_end = true;
            let mut all_noted = true;
            let mut i: usize = 0;
            while i < names.len()
                invariant
                    i <= names.len(),
                    now == texts_view(names@),
                    before.len() == names.len(),
                    first_z.len() == names.len(),
                    seen == noted(now, before, step as int),
                    forall|k: int| 0 <= k < i ==> first_z[k] == seen[k],
                    forall|k: int| i <= k < names.len() ==> first_z[k] == before[k],
                    all_at_end == (forall|k: int| 0 <= k < i ==> ends_in(#[trigger] now[k], 'Z')),
                    all_noted == (forall|k: int| 0 <= k < i ==> #[trigger] seen[k] > 0),
                decreases names.len() - i,
            {
                let name = &names[i];
                assert(now[i as int] == name@);
                let at_end = name.len() > 0 && name[name.len() - 1] == 'Z';
                assert(at_end == ends_in(now[i as int], 'Z'));
                assert(first_z[i as int] == before[i as int]);
                if at_end && first_z[i] == 0 {
                    first_z[i] = step;
                }
                assert(first_z[i as int] == seen[i as int]);
                let ghost ends_before = all_at_end;
                let ghost noted_before = all_noted;
                if !at_end {
                    all_at_end = false;
                }
                if first_z[i] == 0 {
                    all_noted = false;
                }
                proof {
                    if ends_before && at_end {
                        assert forall|k: int| 0 <= k < i + 1 implies ends_in(
                            #[trigger] now[k],
                            'Z',
                        ) by {}
                    }
                    if noted_before && seen[i as int] > 0 {
                        assert forall|k: int| 0 <= k < i + 1 implies #[trigger] seen[k] > 0 by {}
                    }
                    if !at_end {
                        assert(!ends_in(now[i as int], 'Z'));
                    }
                    if seen[i as int] == 0 {
                        assert(!(seen[i as int] > 0));
                    }
                }
                i += 1;
            }
            assert(first_z@ =~= seen);
            assert(all_seen(now, seen) == (all_at_end || all_noted));
            if all_at_end || all_noted {
                if first_z.len() == 0 {
                    return Err(NetworkError::NoStart);
                }
                let mut total = first_z[0];
                let mut k: usize = 1;
                assert(match lcm_over(first_z@, first_z.len() as int) {
                    Some(m) => goal == Ok::<usize, NetworkError>(m),
                    None => goal == Err::<usize, NetworkError>(NetworkError::Overflow),
                });
                while k < first_z.len()
                    invariant
                        1 <= k <= first_z.len(),
                        match lcm_over(first_z@, first_z.len() as int) {
                            Some(m) => goal == Ok::<usize, NetworkError>(m),
                            None => goal == Err::<usize, NetworkError>(NetworkError::Overflow),
                        },
                        goal == ghost_steps(
                            self@,
                            starts_of(self@.table, self@.table.len() as int),
                            Seq::new(
                                starts_of(self@.table, self@.table.len() as int).len(),
                                |i: int| 0usize,
                            ),
                            0,
                            max_steps as int,
                        ),
                        lcm_over(first_z@, k as int) == Some(total),
                    decreases first_z.len() - k,
                {
                    match checked_lcm(total, first_z[k]) {
                        Some(m) => {
                            total = m;
                        },
                        None => {
                            proof {
                                lemma_lcm_over_fails(first_z@, k + 1, first_z.len() as int);
                            }
                            return Err(NetworkError::Overflow);
                        },
                    }
                    k += 1;
                }
                return Ok(total);
            }
            if self.directions.len() == 0 {
                return Err(NetworkError::NoDirections);
            }
            let mut next: Vec<Vec<char>> = Vec::new();
            let mut i: usize = 0;
            assert(texts_view(next@) =~= Seq::<Seq<char>>::empty());
            assert(now.len() == names.len());
            assert(next_names(self@, now, step as int, names.len() as int) is Err ==> goal
                == Err::<usize, NetworkError>(
                next_names(self@, now, step as int, names.len() as int)->Err_0,
            ));
            while i < names.len()
                invariant
                    i <= names.len(),
                    now == texts_view(names@),
                    next_names(self@, now, step as int, names.len() as int) is Err ==> goal
                        == Err::<usize, NetworkError>(
                        next_names(self@, now, step as int, names.len() as int)->Err_0,
                    ),
                    goal == ghost_steps(
                        self@,
                        starts_of(self@.table, self@.table.len() as int),
                        Seq::new(
                            starts_of(self@.table, self@.table.len() as int).len(),
                            |i: int| 0usize,
                        ),
                        0,
                        max_steps as int,
                    ),
                    next_names(self@, now, step as int, i as int) == Ok::<
                        Seq<Seq<char>>,
                        NetworkError,
                    >(texts_view(next@)),
                decreases names.len() - i,
            {
                assert(now[i as int] == names[i as int]@);
                match self.follow(&names[i], step) {
                    Ok(name) => {
                        let ghost so_far = texts_view(next@);
                        next.push(name);
                        assert(texts_view(next@) =~= so_far.push(name@));
                    },
                    Err(e) => {
                        proof {
                            lemma_next_names_fail(self@, now, step as int, i + 1, names.len() as int);
                        }
                        return Err(e);
                    },
                }
                i += 1;
            }
            assert(texts_view(next@).len() == next.len());
            assert(now.len() == names.len());
            proof {
                lemma_next_names_len(self@, now, step as int, names.len() as int);
            }
            names = next;
            step += 1;
        }
        Err(NetworkError::NoPath)
    }
}

/// Once a multiple passes the largest number, so does every later one.
proof fn lemma_lcm_over_fails(numbers: Seq<usize>, n: int, end: int)
    requires
        2 <= n <= end,
        lcm_over(numbers, n) is None,
    ensures
        lcm_over(numbers, end) is None,
    decreases end - n,
{
    if n < end {
        lemma_lcm_over_fails(numbers, n, end - 1);
    }
}

/// Once a traveller is lost, the step fails for all.
proof fn lemma_next_names_fail(net: NetworkView, names: Seq<Seq<char>>, step: int, n: int, end: int)
    requires
        n <= end,
        next_names(net, names, step, n) is Err,
    ensures
        next_names(net, names, step, end) == next_names(net, names, step, n),
    decreases end - n,
{
    if n < end {
        lemma_next_names_fail(net, names, step, n, end - 1);
    }
}

/// A step leaves as many travellers as it found.
proof fn lemma_next_names_len(net: NetworkView, names: Seq<Seq<char>>, step: int, n: int)
    requires
        0 <= n,
        next_names(net, names, step, n) is Ok,
    ensures
        next_names(net, names, step, n)->Ok_0.len() == n,
    decreases n,
{
    if n > 0 {
        lemma_next_names_len(net, names, step, n - 1);
    }
}

impl std::str::FromStr for Network {
    type Err = NetworkError;

    fn from_str(s: &str) -> (r: Result<Network, NetworkError>)
        ensures
            match r {
                Ok(net) => network_of(s@) == Ok::<NetworkView, NetworkError>(net@),
                Err(e) => network_of(s@) == Err::<NetworkView, NetworkError>(e),
            },
    {
        Network::parse(s)
    }
}

} // verus!
