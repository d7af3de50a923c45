use vstd::prelude::*;

use crate::text::{pieces, same_text, split_char};
use crate::tree::{below, child, has_parent, ids_distinct, subtree, Node, NodeRef, NodeType, Tree};

verus! {

/// Relies on std's `String::push`: appends one character.
#[verifier::external_body]
pub(crate) fn push_char(s: &mut String, c: char)
    ensures
        final(s)@ == old(s)@.push(c),
{
    s.push(c)
}

/// Why a line of a tree description was refused.
#[derive(Debug, Clone, Copy, PartialEq, Eq, Structural)]
pub enum LineError {
    BadIndentation,
    InvalidIdChar,
    NoSpaceAfterColon,
    IdLength,
    IdOnMetadata,
}

/// The description of each error.
pub open spec fn line_error_text(e: LineError) -> Seq<char> {
    match e {
        LineError::BadIndentation => "Indentation not multiple of four"@,
        LineError::InvalidIdChar => "Node id contains invalid characters"@,
        LineError::NoSpaceAfterColon => "Space required after colon"@,
        LineError::IdLength => "Node id is not exactly 5 chars long"@,
        LineError::IdOnMetadata => "Cannot have IDs on metadata lines"@,
    }
}

impl LineError {
    /// A human-readable description.
    pub fn message(&self) -> (r: &'static str)
        ensures
            r@ == line_error_text(*self),
    {
        match self {
            LineError::BadIndentation => "Indentation not multiple of four",
            LineError::InvalidIdChar => "Node id contains invalid characters",
            LineError::NoSpaceAfterColon => "Space required after colon",
            LineError::IdLength => "Node id is not exactly 5 chars long",
            LineError::IdOnMetadata => "Cannot have IDs on metadata lines",
        }
    }
}

/// One line of a tree description, split into its parts.
#[derive(Debug, Clone)]
pub struct ParsedLine {
    /// Depth: the leading spaces divided by four.
    pub indent: usize,
    /// The line began with `@`.
    pub is_metadata: bool,
    pub id: Option<String>,
    pub node_type: String,
    pub text: Option<String>,
}

/// Where the scanner stands within a line.
#[derive(Debug, Clone, Copy, PartialEq, Eq, Structural)]
pub enum Phase {
    Indent,
    Type,
    Id,
    Sep,
    Text,
}

/// What the scanner has gathered so far.
pub struct Scan {
    pub phase: Phase,
    pub indent: nat,
    pub is_metadata: bool,
    pub id: Option<Seq<char>>,
    pub node_type: Seq<char>,
    pub text: Option<Seq<char>>,
}

pub open spec fn scan_start() -> Scan {
    Scan {
        phase: Phase::Indent,
        indent: 0,
        is_metadata: false,
        id: None,
        node_type: seq![],
        text: None,
    }
}

/// Characters that `str::trim` removes: Unicode White_Space.
pub open spec fn is_space(c: char) -> bool {
    let u = c as u32;
    (9 <= u <= 13) || u == 32 || u == 0x85 || u == 0xA0 || u == 0x1680 || (0x2000 <= u <= 0x200A)
        || u == 0x2028 || u == 0x2029 || u == 0x202F || u == 0x205F || u == 0x3000
}

/// Characters allowed in a node id: ASCII letters and digits.
pub open spec fn is_id_char(c: char) -> bool {
    let u = c as u32;
    (0x61 <= u <= 0x7A) || (0x41 <= u <= 0x5A) || (0x30 <= u <= 0x39)
}

/// One character, read once the indentation is over. `first` holds for the
/// character that ended the indentation.
pub open spec fn step_body(s: Scan, c: char, first: bool) -> Result<Scan, LineError> {
    if c == '\n' {
        Ok(s)
    } else {
        match s.phase {
            Phase::Type => {
                if first && c == '@' {
                    Ok(Scan { is_metadata: true, ..s })
                } else if first && c == '-' {
                    Ok(Scan { node_type: seq!['-'], phase: Phase::Sep, ..s })
                } else if c == ':' {
                    Ok(Scan { phase: Phase::Sep, ..s })
                } else if c == '#' {
                    Ok(Scan { phase: Phase::Id, ..s })
                } else {
                    Ok(Scan { node_type: s.node_type.push(c), ..s })
                }
            },
            Phase::Id => {
                let id = match s.id {
                    Some(x) => x,
                    None => seq![],
                };
                if c == ':' {
                    Ok(Scan { id: Some(id), phase: Phase::Sep, ..s })
                } else if !is_id_char(c) {
                    Err(LineError::InvalidIdChar)
                } else {
                    Ok(Scan { id: Some(id.push(c)), ..s })
                }
            },
            Phase::Sep => {
                if c != ' ' {
                    Err(LineError::NoSpaceAfterColon)
                } else {
                    Ok(Scan { phase: Phase::Text, ..s })
                }
            },
            _ => {
                let t = match s.text {
                    Some(x) => x,
                    None => seq![],
                };
                Ok(Scan { text: Some(t.push(c)), ..s })
            },
        }
    }
}

/// One character of a line.
pub open spec fn step(s: Scan, c: char) -> Result<Scan, LineError> {
    if s.phase == Phase::Indent {
        if c == ' ' {
            Ok(Scan { indent: s.indent + 1, ..s })
        } else if s.indent % 4 != 0 {
            Err(LineError::BadIndentation)
        } else {
            step_body(Scan { indent: s.indent / 4, phase: Phase::Type, ..s }, c, true)
        }
    } else {
        step_body(s, c, false)
    }
}

/// The scanner after the first `n` characters of `line`.
pub open spec fn scan(line: Seq<char>, n: int) -> Result<Scan, LineError>
    decreases n,
{
    if n <= 0 {
        Ok(scan_start())
    } else {
        match scan(line, n - 1) {
            Ok(s) => step(s, line[n - 1]),
            Err(e) => Err(e),
        }
    }
}

/// The checks made once the whole line is read.
pub open spec fn finish(s: Scan) -> Result<Scan, LineError> {
    match s.id {
        Some(x) => if x.len() != 5 {
            Err(LineError::IdLength)
        } else if s.is_metadata {
            Err(LineError::IdOnMetadata)
        } else {
            Ok(s)
        },
        None => Ok(s),
    }
}

/// What a line of a tree description means; a blank line means nothing.
pub open spec fn parse_line_spec(line: Seq<char>) -> Result<Scan, LineError> {
    if forall|i: int| 0 <= i < line.len() ==> is_space(#[trigger] line[i]) {
        Ok(scan_start())
    } else {
        match scan(line, line.len() as int) {
            Ok(s) => finish(s),
            Err(e) => Err(e),
        }
    }
}

pub open spec fn opt_view(o: Option<String>) -> Option<Seq<char>> {
    match o {
        Some(s) => Some(s@),
        None => None,
    }
}

/// The parsed line agrees with the scanner's result.
pub open spec fn parsed_as(p: ParsedLine, s: Scan) -> bool {
    &&& p.indent == s.indent
    &&& p.is_metadata == s.is_metadata
    &&& opt_view(p.id) == s.id
    &&& p.node_type@ == s.node_type
    &&& opt_view(p.text) == s.text
}

proof fn lemma_scan_err(line: Seq<char>, n: int, m: int)
    requires
        0 <= n <= m,
        scan(line, n) is Err,
    ensures
        scan(line, m) == scan(line, n),
    decreases m - n,
{
    if m > n {
        lemma_scan_err(line, n, m - 1);
    }
}

/// Whether `c` is Unicode white space.
pub fn is_space_char(c: char) -> (r: bool)
    ensures
        r == is_space(c),
{
    let u = c as u32;
    (9 <= u && u <= 13) || u == 32 || u == 0x85 || u == 0xA0 || u == 0x1680 || (0x2000 <= u && u
        <= 0x200A) || u == 0x2028 || u == 0x2029 || u == 0x202F || u == 0x205F || u == 0x3000
}

fn is_id_char_exec(c: char) -> (r: bool)
    ensures
        r == is_id_char(c),
{
    let u = c as u32;
    (0x61 <= u && u <= 0x7A) || (0x41 <= u && u <= 0x5A) || (0x30 <= u && u <= 0x39)
}

/// Whether the line holds only white space.
pub fn is_blank(line: &str) -> (r: bool)
    ensures
        r == forall|i: int| 0 <= i < line@.len() ==> is_space(#[trigger] line@[i]),
{
    let n = line.unicode_len();
    let mut i: usize = 0;
    while i < n
        invariant
            n == line@.len(),
            i <= n,
            forall|x: int| 0 <= x < i ==> is_space(#[trigger] line@[x]),
        decreases n - i,
    {
        if !is_space_char(line.get_char(i)) {
            return false;
        }
        i = i + 1;
    }
    true
}

/// Splits one line of a tree description into indentation, metadata
/// marker, node type, id and text.
#[verifier::spinoff_prover]
pub fn parse_line(line: &str) -> (r: Result<ParsedLine, LineError>)
    ensures
        match r {
            Ok(p) => parse_line_spec(line@) matches Ok(s) && parsed_as(p, s),
            Err(e) => parse_line_spec(line@) == Err::<Scan, LineError>(e),
        },
{
    if is_blank(line) {
        return Ok(
            ParsedLine {
                indent: 0,
                is_metadata: false,
                id: None,
                node_type: String::new(),
                text: None,
            },
        );
    }
    let n = line.unicode_len();
    let mut phase = Phase::Indent;
    let mut indent: usize = 0;
    let mut is_metadata = false;
    let mut has_id = false;
    let mut id = String::new();
    let mut node_type = String::new();
    let mut has_text = false;
    let mut text = String::new();
    let mut i: usize = 0;
    while i < n
        invariant
            n == line@.len(),
            i <= n,
            indent <= i,
            !(forall|x: int| 0 <= x < line@.len() ==> is_space(#[trigger] line@[x])),
            !has_id ==> id@ == Seq::<char>::empty(),
            !has_text ==> text@ == Seq::<char>::empty(),
            scan(line@, i as int) == Ok::<Scan, LineError>(
                Scan {
                    phase,
                    indent: indent as nat,
                    is_metadata,
                    id: if has_id {
                        Some(id@)
                    } else {
                        None
                    },
                    node_type: node_type@,
                    text: if has_text {
                        Some(text@)
                    } else {
                        None
                    },
                },
            ),
        decreases n - i,
    {
        let c = line.get_char(i);
        let mut first = false;
        let ghost st = Scan {
            phase,
            indent: indent as nat,
            is_metadata,
            id: if has_id {
                Some(id@)
            } else {
                None
            },
            node_type: node_type@,
            text: if has_text {
                Some(text@)
            } else {
                None
            },
        };
        proof {
            assert(line@[i as int] == c);
            assert(scan(line@, i + 1) == step(st, c));
        }
        if phase == Phase::Indent {
            if c == ' ' {
                indent = indent + 1;
                i = i + 1;
                continue;
            }
            if indent % 4 != 0 {
                proof {
                    assert(scan(line@, i + 1) == Err::<Scan, LineError>(LineError::BadIndentation));
                    lemma_scan_err(line@, i + 1, n as int);
                }
                return Err(LineError::BadIndentation);
            }
            indent = indent / 4;
            phase = Phase::Type;
            first = true;
        }
        if c == '\n' {
            i = i + 1;
            continue;
        }
        if phase == Phase::Type {
            if first && c == '@' {
                is_metadata = true;
            } else if first && c == '-' {
                node_type = String::new();
                push_char(&mut node_type, '-');
                assert(node_type@ =~= seq!['-']);
                phase = Phase::Sep;
            } else if c == ':' {
                phase = Phase::Sep;
            } else if c == '#' {
                phase = Phase::Id;
            } else {
                push_char(&mut node_type, c);
            }
        } else if phase == Phase::Id {
            has_id = true;
            if c == ':' {
                phase = Phase::Sep;
            } else if !is_id_char_exec(c) {
                proof {
                    assert(scan(line@, i + 1) == Err::<Scan, LineError>(LineError::InvalidIdChar));
                    lemma_scan_err(line@, i + 1, n as int);
                }
                return Err(LineError::InvalidIdChar);
            } else {
                push_char(&mut id, c);
            }
        } else if phase == Phase::Sep {
            if c != ' ' {
                proof {
                    assert(scan(line@, i + 1) == Err::<Scan, LineError>(LineError::NoSpaceAfterColon));
                    lemma_scan_err(line@, i + 1, n as int);
                }
                return Err(LineError::NoSpaceAfterColon);
            }
            phase = Phase::Text;
        } else {
            has_text = true;
            push_char(&mut text, c);
        }
        i = i + 1;
    }
    if has_id {
        if id.unicode_len() != 5 {
            return Err(LineError::IdLength);
        }
        if is_metadata {
            return Err(LineError::IdOnMetadata);
        }
    }
    Ok(
        ParsedLine {
            indent,
            is_metadata,
            id: if has_id {
                Some(id)
            } else {
                None
            },
            node_type,
            text: if has_text {
                Some(text)
            } else {
                None
            },
        },
    )
}

/// The decimal digits of `n`.
pub open spec fn decimal(n: nat) -> Seq<char>
    decreases n,
{
    let d = seq!['0', '1', '2', '3', '4', '5', '6', '7', '8', '9'];
    if n < 10 {
        seq![d[n as int]]
    } else {
        decimal(n / 10).push(d[(n % 10) as int])
    }
}

/// The digit character for `d < 10`.
fn digit_char(d: u128) -> (c: char)
    requires
        d < 10,
    ensures
        c == seq!['0', '1', '2', '3', '4', '5', '6', '7', '8', '9'][d as int],
{
    if d == 0 {
        '0'
    } else if d == 1 {
        '1'
    } else if d == 2 {
        '2'
    } else if d == 3 {
        '3'
    } else if d == 4 {
        '4'
    } else if d == 5 {
        '5'
    } else if d == 6 {
        '6'
    } else if d == 7 {
        '7'
    } else if d == 8 {
        '8'
    } else {
        '9'
    }
}

/// `n` written in decimal.
pub(crate) fn decimal_text(n: u128) -> (r: String)
    ensures
        r@ == decimal(n as nat),
    decreases n,
{
    let c = digit_char(n % 10);
    if n < 10 {
        let mut s = String::new();
        push_char(&mut s, c);
        assert(s@ =~= seq![c]);
        s
    } else {
        let mut s = decimal_text(n / 10);
        push_char(&mut s, c);
        s
    }
}

/// `Line <n>: <msg>`.
pub(crate) fn line_error(line_no: usize, msg: &str) -> (r: String)
    ensures
        r@ == "Line "@ + decimal(line_no as nat) + ": "@ + msg@,
{
    let mut r = String::new();
    r.append("Line ");
    let n = decimal_text(line_no as u128);
    r.append(n.as_str());
    r.append(": ");
    r.append(msg);
    r
}

/// A line without one carriage return at its end.
pub open spec fn strip_cr_spec(l: Seq<char>) -> Seq<char> {
    if l.len() > 0 && l.last() == '\r' {
        l.drop_last()
    } else {
        l
    }
}

/// The lines of `text`: the pieces between line feeds, without a final
/// empty piece, each without a carriage return at its end.
pub open spec fn text_lines(text: Seq<char>) -> Seq<Seq<char>> {
    let p = pieces(text, '\n');
    let q = if p.len() > 0 && p.last().len() == 0 {
        p.drop_last()
    } else {
        p
    };
    q.map_values(|l: Seq<char>| strip_cr_spec(l))
}

/// Splits text into lines.
pub fn split_lines(text: &str) -> (r: Vec<String>)
    ensures
        r@.map_values(|l: String| l@) == text_lines(text@),
{
    let parts = split_char(text, '\n');
    let ghost p = parts@.map_values(|l: String| l@);
    let n = parts.len();
    let keep = if n > 0 && parts[n - 1].unicode_len() == 0 {
        n - 1
    } else {
        n
    };
    let ghost q = if p.len() > 0 && p.last().len() == 0 {
        p.drop_last()
    } else {
        p
    };
    proof {
        if n > 0 {
            assert(p.last() == parts@[n - 1]@);
        }
        assert(q.len() == keep);
    }
    let mut out: Vec<String> = Vec::new();
    let mut i: usize = 0;
    while i < keep
        invariant
            keep <= parts@.len(),
            p == parts@.map_values(|l: String| l@),
            q.len() == keep,
            forall|k: int| 0 <= k < keep ==> #[trigger] q[k] == p[k],
            i <= keep,
            out@.map_values(|l: String| l@) == q.subrange(0, i as int).map_values(|l: Seq<char>| strip_cr_spec(l)),
        decreases keep - i,
    {
        let line = strip_cr(parts[i].as_str());
        let ghost before = out@;
        out.push(line);
        proof {
            assert(q[i as int] == parts@[i as int]@);
            assert(out@ == before.push(line));
            assert(out@.map_values(|l: String| l@) =~= before.map_values(|l: String| l@).push(line@));
            assert(q.subrange(0, i + 1).map_values(|l: Seq<char>| strip_cr_spec(l)) =~= q.subrange(0, i as int).map_values(
                |l: Seq<char>| strip_cr_spec(l),
            ).push(strip_cr_spec(q[i as int])));
            assert(out@.map_values(|l: String| l@) =~= q.subrange(0, i + 1).map_values(|l: Seq<char>| strip_cr_spec(l)));
        }
        i = i + 1;
    }
    proof {
        assert(q.subrange(0, keep as int) =~= q);
    }
    out
}

/// Drops one carriage return at the end of a line.
fn strip_cr(line: &str) -> (r: String)
    ensures
        r@ == strip_cr_spec(line@),
{
    let n = line.unicode_len();
    if n > 0 && line.get_char(n - 1) == '\r' {
        let s = line.substring_char(0, n - 1);
        assert(s@ =~= line@.drop_last());
        s.to_owned()
    } else {
        line.to_owned()
    }
}

/// The node type that a line names.
pub fn node_type_from_str(s: &str) -> (r: Option<NodeType>)
    ensures
        r == if s@ == "project"@ {
            Some(NodeType::Project)
        } else if s@ == "task"@ {
            Some(NodeType::Task)
        } else {
            None::<NodeType>
        },
{
    if same_text(s, "project") {
        Some(NodeType::Project)
    } else if same_text(s, "task") {
        Some(NodeType::Task)
    } else {
        None
    }
}

/// The pending node at position `j` of level `i`.
pub open spec fn pend(peers: Seq<Vec<NodeRef>>, i: int, j: int) -> NodeRef {
    peers[i]@[j]
}

/// Node `x` waits at some level for its parent.
pub open spec fn pending(peers: Seq<Vec<NodeRef>>, x: int) -> bool {
    exists|i: int, j: int| 0 <= i < peers.len() && 0 <= j < peers[i]@.len() && #[trigger] pend(peers, i, j).0 == x
}

/// What a line reads as; the starting scanner if it cannot be read.
pub open spec fn line_scan(l: Seq<char>) -> Scan {
    match parse_line_spec(l) {
        Ok(s) => s,
        Err(_) => scan_start(),
    }
}

/// The id a line carries, empty if none.
pub open spec fn line_id(l: Seq<char>) -> Seq<char> {
    match line_scan(l).id {
        Some(x) => x,
        None => seq![],
    }
}

/// The line names a node type: `project` or `task`.
pub open spec fn type_ok(l: Seq<char>) -> bool {
    line_scan(l).node_type == "project"@ || line_scan(l).node_type == "task"@
}

/// A valid tree description: every line fits, every node line names a node
/// type, and the node lines' ids are distinct and none is the root's.
pub open spec fn lines_valid(ls: Seq<Seq<char>>) -> bool {
    lines_valid_upto(ls, ls.len() as int)
}

/// The first `n` lines are valid.
pub open spec fn lines_valid_upto(ls: Seq<Seq<char>>, n: int) -> bool {
    &&& forall|k: int| 0 <= k < n ==> #[trigger] line_fits(ls, k)
    &&& forall|k: int| 0 <= k < n && !blank(ls[k]) ==> #[trigger] type_ok(ls[k]) && line_id(ls[k]) != "00000"@
    &&& forall|k1: int, k2: int|
        0 <= k1 < n && 0 <= k2 < n && k1 != k2 && !blank(ls[k1]) && !blank(ls[k2]) ==> #[trigger] line_id(ls[k1])
            != #[trigger] line_id(ls[k2])
}

/// Why line `k` does not fit.
pub open spec fn misfit_text(ls: Seq<Seq<char>>, k: int) -> Seq<char> {
    match parse_line_spec(ls[k]) {
        Err(e) => line_error_text(e),
        Ok(s) => if s.is_metadata {
            "Metadata not allowed yet"@
        } else if s.id is None {
            "ID required"@
        } else {
            "Indent too deep"@
        },
    }
}

/// The node type a line names.
pub open spec fn type_of_line(l: Seq<char>) -> NodeType {
    if line_scan(l).node_type == "project"@ {
        NodeType::Project
    } else {
        NodeType::Task
    }
}

/// Node `i` stands for line `l`: its id, type and text.
pub open spec fn node_is_line(n: Node, l: Seq<char>) -> bool {
    &&& n.id@ == line_id(l)
    &&& n.nodetype == type_of_line(l)
    &&& opt_view(n.name) == line_scan(l).text
}

/// The level of a line: its indentation in steps of four.
#[verifier::opaque]
pub open spec fn depth_of(l: Seq<char>) -> int {
    line_scan(l).indent as int
}

/// The last non-blank line before line `n` that stands at level `d`.
pub open spec fn last_at_depth(ls: Seq<Seq<char>>, n: int, d: int) -> Option<int>
    decreases n,
{
    if n <= 0 {
        None
    } else if !blank(ls[n - 1]) && depth_of(ls[n - 1]) == d {
        Some(n - 1)
    } else {
        last_at_depth(ls, n - 1, d)
    }
}

/// The line that line `k` hangs under: none at the top level, else the
/// last line before it one level up.
#[verifier::opaque]
pub open spec fn parent_line(ls: Seq<Seq<char>>, k: int) -> Option<int> {
    if depth_of(ls[k]) == 0 {
        None
    } else {
        last_at_depth(ls, k, depth_of(ls[k]) - 1)
    }
}

/// Line `k` has become node `i`, or waits on the stack.
pub open spec fn accounted(lo: Seq<int>, st: Seq<(usize, ParsedLine)>, k: int) -> bool {
    (exists|i: int| 0 <= i < lo.len() && #[trigger] lo[i] == k) || (exists|e: int|
        0 <= e < st.len() && (#[trigger] st[e]).0 == k)
}

/// A tree under construction: lines whose children are still being read,
/// and, one level deeper than each, the finished nodes awaiting a parent.
struct ParserState {
    parent_stack: Vec<(usize, ParsedLine)>,
    peers_stack: Vec<Vec<NodeRef>>,
    tree: Tree,
    /// The lines of the description.
    lines: Ghost<Seq<Seq<char>>>,
    /// The line that each node of the tree was read from.
    line_of: Ghost<Seq<int>>,
    /// How many lines have been read.
    seen: Ghost<int>,
}

/// Finishing the deepest pending line keeps the shape of what is built.
#[verifier::spinoff_prover]
#[verifier::rlimit(40)]
proof fn lemma_commit_shape(before: ParserState, after: ParserState, node: NodeRef, li: int, old_tree: Tree)
    requires
        before.shape(),
        old_tree == before.tree,
        before.peers_stack@.len() == before.parent_stack@.len() + 1,
        before.line_of@.len() == before.tree.nodes@.len(),
        forall|e: int, j: int|
            0 <= e < before.peers_stack@.len() && 0 <= j < before.peers_stack@[e]@.len() ==> (#[trigger] pend(
                before.peers_stack@,
                e,
                j,
            )).0 < before.tree.nodes@.len(),
        forall|i: int, k: int|
            0 <= i < before.tree.nodes@.len() && 0 <= k < before.tree.nodes@[i].children.len() ==> #[trigger] child(
                before.tree.nodes@,
                i,
                k,
            ) < i,
        after.lines@ == before.lines@,
        after.seen@ == before.seen@,
        before.parent_stack@.len() >= 1,
        after.parent_stack@ == before.parent_stack@.drop_last(),
        before.parent_stack@.last().0 == li,
        after.line_of@ == before.line_of@.push(li),
        node.0 == before.tree.nodes@.len(),
        after.tree.nodes@.len() == node.0 + 1,
        after.tree.nodes@.subrange(0, node.0 as int) == before.tree.nodes@,
        after.tree.nodes@[node.0 as int].children@ == before.peers_stack@.last()@,
        after.peers_stack@.len() == before.peers_stack@.len() - 1,
        forall|e: int| 0 <= e < after.peers_stack@.len() - 1 ==> #[trigger] after.peers_stack@[e] == before.peers_stack@[e],
        after.peers_stack@[after.peers_stack@.len() - 1]@ == before.peers_stack@[after.peers_stack@.len() - 1]@.push(node),
    ensures
        after.shape(),
{
    reveal(ParserState::shape);
    let lo0 = before.line_of@;
    let children = before.peers_stack@.last();
        let ls = after.lines@;
        let lo = after.line_of@;
        let st = after.parent_stack@;
        let st0 = before.parent_stack@;
        let peers = after.peers_stack@;
        let peers0 = before.peers_stack@;
        let nodes = after.tree.nodes@;
        let m = st0.len() as int;
        let nn = node.0 as int;
        assert(st =~= st0.drop_last());
        assert(peers.len() == m);
        assert(st0[m - 1].0 == li);
        assert(nn == lo0.len());
        assert forall|e: int, j: int| 0 <= e < peers.len() && 0 <= j < peers[e]@.len() implies (e < m - 1 || j
            < peers0[e]@.len() ==> #[trigger] pend(peers, e, j) == pend(peers0, e, j)) && (e == m - 1 && j
            == peers0[e]@.len() ==> pend(peers, e, j) == node) && (e < m - 1 || j <= peers0[e]@.len()) by {
        }
        assert forall|x: int| 0 <= x < lo0.len() implies #[trigger] lo[x] == lo0[x] by {}
        assert forall|e: int|
            0 <= e < st.len() implies depth_of(ls[(#[trigger] st[e]).0 as int]) == e && last_at_depth(
                ls,
                after.seen@,
                e,
            ) == Some(st[e].0 as int) && parent_line(ls, st[e].0 as int) == if e == 0 {
                None
            } else {
                Some(st[e - 1].0 as int)
            } by {
            assert(st[e] == st0[e]);
            if e > 0 {
                assert(st[e - 1] == st0[e - 1]);
            }
        }
        assert forall|e: int, j: int|
            0 <= e < peers.len() && 0 <= j < peers[e]@.len() implies parent_line(ls, lo[#[trigger] pend(peers, e, j).0 as int])
                == if e == 0 {
                None
            } else {
                Some(st[e - 1].0 as int)
            } by {
            if e > 0 {
                assert(st[e - 1] == st0[e - 1]);
            }
            if e == m - 1 && j == peers0[e]@.len() {
                assert(lo[nn] == li);
                assert(parent_line(ls, st0[m - 1].0 as int) == if m - 1 == 0 {
                    None
                } else {
                    Some(st0[m - 2].0 as int)
                });
            } else {
                assert(pend(peers0, e, j).0 < lo0.len());
                assert(lo[pend(peers0, e, j).0 as int] == lo0[pend(peers0, e, j).0 as int]);
            }
        }
        assert forall|e: int, j1: int, j2: int|
            0 <= e < peers.len() && 0 <= j1 < j2 < peers[e]@.len() implies lo[#[trigger] pend(peers, e, j1).0 as int]
                < lo[#[trigger] pend(peers, e, j2).0 as int] by {
            assert(pend(peers0, e, j1).0 < lo0.len());
            assert(lo[pend(peers0, e, j1).0 as int] == lo0[pend(peers0, e, j1).0 as int]);
            if e == m - 1 && j2 == peers0[e]@.len() {
                assert(lo[nn] == li);
                assert(lo0[pend(peers0, e, j1).0 as int] < st0[e].0);
            } else {
                assert(pend(peers0, e, j2).0 < lo0.len());
                assert(lo[pend(peers0, e, j2).0 as int] == lo0[pend(peers0, e, j2).0 as int]);
            }
        }
        assert forall|e: int, j: int|
            0 <= e < st.len() && 0 <= j < peers[e]@.len() implies lo[#[trigger] pend(peers, e, j).0 as int] < st[e].0 by {
            assert(st[e] == st0[e]);
            assert(pend(peers0, e, j).0 < lo0.len());
            assert(lo[pend(peers0, e, j).0 as int] == lo0[pend(peers0, e, j).0 as int]);
        }
        assert forall|i: int, c: int|
            0 <= i < nodes.len() && 0 <= c < nodes[i].children.len() implies parent_line(
                ls,
                lo[#[trigger] child(nodes, i, c)],
            ) == Some(lo[i]) by {
            if i < nn {
                assert(nodes[i] == old_tree.nodes@[i]);
                assert(child(nodes, i, c) == child(old_tree.nodes@, i, c));
                assert(child(nodes, i, c) < i);
            } else {
                assert(child(nodes, i, c) == pend(peers0, m, c).0);
                assert(pend(peers0, m, c).0 < lo0.len());
                assert(lo[pend(peers0, m, c).0 as int] == lo0[pend(peers0, m, c).0 as int]);
            }
        }
        assert forall|i: int, a: int, b: int|
            0 <= i < nodes.len() && 0 <= a < b < nodes[i].children.len() implies lo[#[trigger] child(nodes, i, a)]
                < lo[#[trigger] child(nodes, i, b)] by {
            if i < nn {
                assert(nodes[i] == old_tree.nodes@[i]);
                assert(child(nodes, i, a) == child(old_tree.nodes@, i, a));
                assert(child(nodes, i, b) == child(old_tree.nodes@, i, b));
                assert(child(nodes, i, a) < i && child(nodes, i, b) < i);
            } else {
                assert(child(nodes, i, a) == pend(peers0, m, a).0);
                assert(child(nodes, i, b) == pend(peers0, m, b).0);
                assert(pend(peers0, m, a).0 < lo0.len());
                assert(pend(peers0, m, b).0 < lo0.len());
            }
        }
}

/// Reading a blank line keeps the shape.
proof fn lemma_blank_shape(before: ParserState, after: ParserState)
    requires
        before.shape(),
        after == (ParserState { seen: Ghost(before.seen@ + 1), ..before }),
        0 <= before.seen@ < before.lines@.len(),
        blank(before.lines@[before.seen@]),
    ensures
        after.shape(),
{
    reveal(ParserState::shape);
    let ls = before.lines@;
    let k = before.seen@;
    let st = before.parent_stack@;
    assert forall|e: int| 0 <= e < st.len() implies last_at_depth(ls, k + 1, #[trigger] st[e].0 as int - st[e].0 as int + e)
        == last_at_depth(ls, k, e) by {
        assert(last_at_depth(ls, k + 1, e) == last_at_depth(ls, k, e));
    }
}

/// Opening line `k` as the deepest pending line keeps the shape.
#[verifier::spinoff_prover]
#[verifier::rlimit(40)]
proof fn lemma_push_shape(before: ParserState, after: ParserState, k: int)
    requires
        before.shape(),
        before.seen@ == k,
        0 <= k < before.lines@.len(),
        !blank(before.lines@[k]),
        depth_of(before.lines@[k]) == before.parent_stack@.len(),
        before.peers_stack@.len() == before.parent_stack@.len() + 1,
        forall|x: int| 0 <= x < before.line_of@.len() ==> #[trigger] before.line_of@[x] < k,
        forall|e: int, j: int|
            0 <= e < before.peers_stack@.len() && 0 <= j < before.peers_stack@[e]@.len() ==> (#[trigger] pend(
                before.peers_stack@,
                e,
                j,
            )).0 < before.line_of@.len(),
        after.lines@ == before.lines@,
        after.line_of@ == before.line_of@,
        after.tree == before.tree,
        after.seen@ == k + 1,
        after.parent_stack@.len() == before.parent_stack@.len() + 1,
        after.parent_stack@.drop_last() == before.parent_stack@,
        after.parent_stack@.last().0 == k,
        after.peers_stack@.len() == before.peers_stack@.len() + 1,
        after.peers_stack@.drop_last() == before.peers_stack@,
        after.peers_stack@.last()@.len() == 0,
    ensures
        after.shape(),
{
    reveal(ParserState::shape);
    reveal(parent_line);
    let ls = before.lines@;
    let st0 = before.parent_stack@;
    let st = after.parent_stack@;
    let peers0 = before.peers_stack@;
    let peers = after.peers_stack@;
    let d = st0.len() as int;
    assert forall|e: int| 0 <= e < st.len() implies depth_of(ls[(#[trigger] st[e]).0 as int]) == e && last_at_depth(
        ls,
        k + 1,
        e,
    ) == Some(st[e].0 as int) && parent_line(ls, st[e].0 as int) == if e == 0 {
        None
    } else {
        Some(st[e - 1].0 as int)
    } by {
        if e < d {
            assert(st[e] == st0[e]);
            assert(last_at_depth(ls, k + 1, e) == last_at_depth(ls, k, e));
            if e > 0 {
                assert(st[e - 1] == st0[e - 1]);
            }
        } else {
            assert(e == d);
            assert(st[e].0 == k);
            assert(last_at_depth(ls, k + 1, e) == Some(k));
            if e > 0 {
                assert(st[e - 1] == st0[e - 1]);
                assert(last_at_depth(ls, k, d - 1) == Some(st0[d - 1].0 as int));
            }
        }
    }
    assert forall|e: int, j: int|
        0 <= e < peers.len() && 0 <= j < peers[e]@.len() implies parent_line(ls, after.line_of@[#[trigger] pend(peers, e, j).0 as int])
            == if e == 0 {
            None
        } else {
            Some(st[e - 1].0 as int)
        } by {
        assert(e < d + 1);
        assert(pend(peers, e, j) == pend(peers0, e, j));
        if e > 0 {
            assert(st[e - 1] == st0[e - 1]);
        }
    }
    assert forall|e: int, j1: int, j2: int|
        0 <= e < peers.len() && 0 <= j1 < j2 < peers[e]@.len() implies after.line_of@[#[trigger] pend(peers, e, j1).0 as int]
            < after.line_of@[#[trigger] pend(peers, e, j2).0 as int] by {
        assert(pend(peers, e, j1) == pend(peers0, e, j1));
        assert(pend(peers, e, j2) == pend(peers0, e, j2));
    }
    assert forall|e: int, j: int|
        0 <= e < st.len() && 0 <= j < peers[e]@.len() implies after.line_of@[#[trigger] pend(peers, e, j).0 as int] < st[e].0 by {
        assert(pend(peers, e, j) == pend(peers0, e, j));
        if e < d {
            assert(st[e] == st0[e]);
        }
    }
}

/// `Line <k+1>: <what>`.
pub open spec fn line_message(k: int, what: Seq<char>) -> Seq<char> {
    "Line "@ + decimal((k + 1) as nat) + ": "@ + what
}

/// Why finishing a pending line can fail: its node type is not one, or its
/// id is the root's or repeats another line's; or there are too many lines.
pub open spec fn commit_failure(ls: Seq<Seq<char>>, seen: int, m: Seq<char>) -> bool {
    ||| ls.len() >= usize::MAX
    ||| exists|li: int|
        0 <= li < seen && !blank(ls[li]) && ((m == line_message(li, "Invalid node type"@) && !#[trigger] type_ok(ls[li]))
            || (m == line_message(li, "Id duplicated in tree"@) && type_ok(ls[li]) && (line_id(ls[li]) == "00000"@
            || exists|j: int| 0 <= j < seen && j != li && !blank(ls[j]) && #[trigger] line_id(ls[j]) == line_id(ls[li]))))
}

proof fn lemma_failure_mono(ls: Seq<Seq<char>>, s1: int, s2: int, m: Seq<char>)
    requires
        commit_failure(ls, s1, m),
        s1 <= s2,
    ensures
        commit_failure(ls, s2, m),
{
    if ls.len() < usize::MAX {
        let li = choose|li: int|
            0 <= li < s1 && !blank(ls[li]) && ((m == line_message(li, "Invalid node type"@) && !#[trigger] type_ok(ls[li]))
                || (m == line_message(li, "Id duplicated in tree"@) && type_ok(ls[li]) && (line_id(ls[li]) == "00000"@
                || exists|j: int| 0 <= j < s1 && j != li && !blank(ls[j]) && #[trigger] line_id(ls[j]) == line_id(ls[li]))));
        if !type_ok(ls[li]) {
            assert(0 <= li < s2);
        } else if line_id(ls[li]) != "00000"@ {
            let j = choose|j: int| 0 <= j < s1 && j != li && !blank(ls[j]) && #[trigger] line_id(ls[j]) == line_id(ls[li]);
            assert(0 <= j < s2 && j != li && !blank(ls[j]) && line_id(ls[j]) == line_id(ls[li]));
        }
    }
}

/// Every line fits and the ids of node lines are distinct.
pub open spec fn fits_and_distinct(ls: Seq<Seq<char>>) -> bool {
    &&& forall|j: int| 0 <= j < ls.len() ==> #[trigger] line_fits(ls, j)
    &&& forall|k1: int, k2: int|
        0 <= k1 < ls.len() && 0 <= k2 < ls.len() && k1 != k2 && !blank(ls[k1]) && !blank(ls[k2]) ==> #[trigger] line_id(ls[k1])
            != #[trigger] line_id(ls[k2])
}

/// Line `k` is the one defect of the description: its node type is unknown.
pub open spec fn only_bad_type(ls: Seq<Seq<char>>, k: int) -> bool {
    &&& 0 <= k < ls.len() && !blank(ls[k]) && !type_ok(ls[k])
    &&& fits_and_distinct(ls)
    &&& forall|j: int| 0 <= j < ls.len() && !blank(ls[j]) && j != k ==> #[trigger] type_ok(ls[j])
    &&& forall|j: int| 0 <= j < ls.len() && !blank(ls[j]) ==> #[trigger] line_id(ls[j]) != "00000"@
}

/// Line `k` is the one defect of the description: it takes the root's id.
pub open spec fn only_root_id(ls: Seq<Seq<char>>, k: int) -> bool {
    &&& 0 <= k < ls.len() && !blank(ls[k]) && line_id(ls[k]) == "00000"@
    &&& fits_and_distinct(ls)
    &&& forall|j: int| 0 <= j < ls.len() && !blank(ls[j]) ==> #[trigger] type_ok(ls[j])
}

/// A failure to finish a line names the one defect, when there is one.
proof fn lemma_failure_text(ls: Seq<Seq<char>>, seen: int, m: Seq<char>)
    requires
        commit_failure(ls, seen, m),
        0 <= seen <= ls.len(),
    ensures
        forall|k: int|
            only_bad_type(ls, k) && ls.len() < usize::MAX ==> m == #[trigger] line_message(k, "Invalid node type"@),
        forall|k: int|
            only_root_id(ls, k) && ls.len() < usize::MAX ==> m == #[trigger] line_message(k, "Id duplicated in tree"@),
{
    assert forall|k: int|
        only_bad_type(ls, k) && ls.len() < usize::MAX implies m == #[trigger] line_message(k, "Invalid node type"@) by {
        let li = choose|li: int|
            0 <= li < seen && !blank(ls[li]) && ((m == line_message(li, "Invalid node type"@) && !#[trigger] type_ok(ls[li]))
                || (m == line_message(li, "Id duplicated in tree"@) && type_ok(ls[li]) && (line_id(ls[li]) == "00000"@
                || exists|j: int| 0 <= j < seen && j != li && !blank(ls[j]) && #[trigger] line_id(ls[j]) == line_id(ls[li]))));
        if !type_ok(ls[li]) {
            assert(li == k);
        } else {
            assert(line_id(ls[li]) != "00000"@);
            if exists|j: int| 0 <= j < seen && j != li && !blank(ls[j]) && #[trigger] line_id(ls[j]) == line_id(ls[li]) {
                let j = choose|j: int| 0 <= j < seen && j != li && !blank(ls[j]) && #[trigger] line_id(ls[j]) == line_id(ls[li]);
                assert(line_id(ls[j]) != line_id(ls[li]));
            }
        }
    }
    assert forall|k: int|
        only_root_id(ls, k) && ls.len() < usize::MAX implies m == #[trigger] line_message(k, "Id duplicated in tree"@) by {
        let li = choose|li: int|
            0 <= li < seen && !blank(ls[li]) && ((m == line_message(li, "Invalid node type"@) && !#[trigger] type_ok(ls[li]))
                || (m == line_message(li, "Id duplicated in tree"@) && type_ok(ls[li]) && (line_id(ls[li]) == "00000"@
                || exists|j: int| 0 <= j < seen && j != li && !blank(ls[j]) && #[trigger] line_id(ls[j]) == line_id(ls[li]))));
        assert(type_ok(ls[li]));
        if exists|j: int| 0 <= j < seen && j != li && !blank(ls[j]) && #[trigger] line_id(ls[j]) == line_id(ls[li]) {
            let j = choose|j: int| 0 <= j < seen && j != li && !blank(ls[j]) && #[trigger] line_id(ls[j]) == line_id(ls[li]);
            assert(line_id(ls[j]) != line_id(ls[li]));
        } else {
            if li != k {
                assert(line_id(ls[li]) != line_id(ls[k]));
            }
        }
    }
}

/// The lines of the nodes of `s` rise strictly, in order.
pub open spec fn rising(lo: Seq<int>, s: Seq<NodeRef>) -> bool {
    forall|a: int, b: int| 0 <= a < b < s.len() ==> lo[(#[trigger] s[a]).0 as int] < lo[(#[trigger] s[b]).0 as int]
}

/// The lines of the nodes of `s` lie in `[low, high)`.
pub open spec fn lines_within(lo: Seq<int>, s: Seq<NodeRef>, low: int, high: int) -> bool {
    forall|a: int| 0 <= a < s.len() ==> low <= lo[(#[trigger] s[a]).0 as int] < high
}

/// Subtrees of the first `k` children of `i`, each rising, each below the
/// lines of later children, together rise.
proof fn lemma_below_rising(nodes: Seq<Node>, lo: Seq<int>, i: int, k: int, low: int, high: int)
    requires
        0 <= i < nodes.len(),
        0 <= k <= nodes[i].children.len(),
        forall|j: int| 0 <= j < nodes[i].children.len() ==> 0 <= #[trigger] child(nodes, i, j) < i,
        forall|j: int|
            0 <= j < nodes[i].children.len() ==> rising(lo, subtree(nodes, #[trigger] child(nodes, i, j))) && lines_within(
                lo,
                subtree(nodes, child(nodes, i, j)),
                low,
                high,
            ),
        forall|j1: int, j2: int|
            0 <= j1 < j2 < nodes[i].children.len() ==> lines_within(
                lo,
                subtree(nodes, #[trigger] child(nodes, i, j1)),
                low,
                lo[#[trigger] child(nodes, i, j2)],
            ),
    ensures
        rising(lo, below(nodes, i, k)),
        lines_within(lo, below(nodes, i, k), low, high),
        forall|j2: int| k <= j2 < nodes[i].children.len() ==> lines_within(lo, below(nodes, i, k), low, lo[#[trigger] child(nodes, i, j2)]),
    decreases k,
{
    if k == 0 {
        assert(below(nodes, i, 0) =~= Seq::<NodeRef>::empty());
    } else {
        lemma_below_rising(nodes, lo, i, k - 1, low, high);
        let c = child(nodes, i, k - 1);
        let pre = below(nodes, i, k - 1);
        let sub = subtree(nodes, c);
        let all = below(nodes, i, k);
        assert(all == pre + sub);
        assert(sub[0] == NodeRef(c as usize));
        assert forall|a: int, b: int| 0 <= a < b < all.len() implies lo[(#[trigger] all[a]).0 as int] < lo[(
        #[trigger] all[b]).0 as int] by {
            if b < pre.len() {
                assert(all[a] == pre[a] && all[b] == pre[b]);
            } else if a >= pre.len() {
                assert(all[a] == sub[a - pre.len()] && all[b] == sub[b - pre.len()]);
            } else {
                assert(all[a] == pre[a] && all[b] == sub[b - pre.len()]);
                assert(lo[pre[a].0 as int] < lo[c]);
                if b - pre.len() > 0 {
                    assert(lo[sub[0].0 as int] < lo[sub[b - pre.len()].0 as int]);
                }
            }
        }
        assert forall|a: int| 0 <= a < all.len() implies low <= lo[(#[trigger] all[a]).0 as int] < high by {
            if a < pre.len() {
                assert(all[a] == pre[a]);
            } else {
                assert(all[a] == sub[a - pre.len()]);
            }
        }
        assert forall|j2: int| k <= j2 < nodes[i].children.len() implies lines_within(lo, all, low, lo[#[trigger] child(nodes, i, j2)]) by {
            assert forall|a: int| 0 <= a < all.len() implies low <= lo[(#[trigger] all[a]).0 as int] < lo[child(nodes, i, j2)] by {
                if a < pre.len() {
                    assert(all[a] == pre[a]);
                } else {
                    assert(all[a] == sub[a - pre.len()]);
                }
            }
        }
    }
}

/// A subtree of an older node is the same after a node is added, and its
/// lines are unchanged.
proof fn lemma_subtree_kept(before: Seq<Node>, after: Seq<Node>, lo0: Seq<int>, lo: Seq<int>, x: int)
    requires
        0 <= x < before.len(),
        before.len() <= after.len(),
        after.subrange(0, before.len() as int) == before,
        lo0.len() == before.len(),
        lo.len() >= lo0.len(),
        lo.subrange(0, lo0.len() as int) == lo0,
        forall|i: int, k: int| 0 <= i < before.len() && 0 <= k < before[i].children.len() ==> #[trigger] child(before, i, k) < i,
    ensures
        subtree(after, x) == subtree(before, x),
        forall|a: int| 0 <= a < subtree(before, x).len() ==> lo[(#[trigger] subtree(before, x)[a]).0 as int] == lo0[subtree(
            before,
            x,
        )[a].0 as int],
        rising(lo0, subtree(before, x)) ==> rising(lo, subtree(before, x)),
        forall|low: int, high: int| #[trigger] lines_within(lo0, subtree(before, x), low, high) ==> lines_within(lo, subtree(before, x), low, high),
{
    assert(before =~= after.subrange(0, before.len() as int));
    crate::tree::lemma_subtree_prefix(after, before, x);
    crate::tree::lemma_subtree_older(before, x);
    let sub = subtree(before, x);
    assert forall|a: int| 0 <= a < sub.len() implies lo[(#[trigger] sub[a]).0 as int] == lo0[sub[a].0 as int] by {
        assert(sub[a].0 <= x);
        assert(lo[sub[a].0 as int] == lo.subrange(0, lo0.len() as int)[sub[a].0 as int]);
    }
}

/// Reading a blank line keeps the order.
proof fn lemma_blank_ordered(before: ParserState, after: ParserState)
    requires
        before.ordered(),
        after == (ParserState { seen: Ghost(before.seen@ + 1), ..before }),
    ensures
        after.ordered(),
{
    reveal(ParserState::ordered);
    let lo = before.line_of@;
    let nodes = before.tree.nodes@;
    assert forall|i: int| 0 <= i < nodes.len() implies rising(lo, #[trigger] subtree(nodes, i)) && lines_within(
        lo,
        subtree(nodes, i),
        lo[i],
        after.seen@,
    ) by {
        assert(lines_within(lo, subtree(nodes, i), lo[i], before.seen@));
    }
}

/// Opening line `k` as the deepest pending line keeps the order.
#[verifier::spinoff_prover]
proof fn lemma_push_ordered(before: ParserState, after: ParserState, k: int)
    requires
        before.ordered(),
        before.seen@ == k,
        before.peers_stack@.len() == before.parent_stack@.len() + 1,
        forall|e: int| 0 <= e < before.parent_stack@.len() ==> (#[trigger] before.parent_stack@[e]).0 < k,
        forall|x: int| 0 <= x < before.line_of@.len() ==> 0 <= #[trigger] before.line_of@[x],
        before.line_of@.len() == before.tree.nodes@.len(),
        forall|e: int, j: int|
            0 <= e < before.peers_stack@.len() && 0 <= j < before.peers_stack@[e]@.len() ==> (#[trigger] pend(
                before.peers_stack@,
                e,
                j,
            )).0 < before.tree.nodes@.len(),
        after.lines@ == before.lines@,
        after.line_of@ == before.line_of@,
        after.tree == before.tree,
        after.seen@ == k + 1,
        after.parent_stack@.len() == before.parent_stack@.len() + 1,
        after.parent_stack@.drop_last() == before.parent_stack@,
        after.parent_stack@.last().0 == k,
        after.peers_stack@.len() == before.peers_stack@.len() + 1,
        after.peers_stack@.drop_last() == before.peers_stack@,
        after.peers_stack@.last()@.len() == 0,
    ensures
        after.ordered(),
{
    reveal(ParserState::ordered);
    let lo = before.line_of@;
    let nodes = before.tree.nodes@;
    let st0 = before.parent_stack@;
    let st = after.parent_stack@;
    let peers0 = before.peers_stack@;
    let peers = after.peers_stack@;
    let d = st0.len() as int;
    assert forall|i: int| 0 <= i < nodes.len() implies rising(lo, #[trigger] subtree(nodes, i)) && lines_within(
        lo,
        subtree(nodes, i),
        lo[i],
        after.seen@,
    ) by {
        assert(lines_within(lo, subtree(nodes, i), lo[i], before.seen@));
    }
    assert forall|e: int, j1: int, j2: int|
        0 <= e < peers.len() && 0 <= j1 < j2 < peers[e]@.len() implies lines_within(
            lo,
            subtree(nodes, (#[trigger] pend(peers, e, j1)).0 as int),
            0,
            lo[(#[trigger] pend(peers, e, j2)).0 as int],
        ) by {
        assert(pend(peers, e, j1) == pend(peers0, e, j1));
        assert(pend(peers, e, j2) == pend(peers0, e, j2));
    }
    assert forall|e: int, j: int|
        0 <= e < st.len() && 0 <= j < peers[e + 1]@.len() implies st[e].0 < lo[(#[trigger] pend(peers, e + 1, j)).0 as int] by {
        assert(e + 1 <= d);
        assert(pend(peers, e + 1, j) == pend(peers0, e + 1, j));
        assert(st[e] == st0[e]);
    }
    assert forall|e: int, j: int|
        0 <= e < st.len() && 0 <= j < peers[e]@.len() implies lines_within(
            lo,
            subtree(nodes, (#[trigger] pend(peers, e, j)).0 as int),
            0,
            st[e].0 as int,
        ) by {
        assert(pend(peers, e, j) == pend(peers0, e, j));
        if e < d {
            assert(st[e] == st0[e]);
        } else {
            let x = pend(peers0, e, j).0 as int;
            assert(st[e].0 == k);
            assert(lines_within(lo, subtree(nodes, x), lo[x], before.seen@));
            assert(x < nodes.len());
            assert(0 <= lo[x]);
        }
    }
    assert forall|e: int| 0 <= e && e + 1 < st.len() implies (#[trigger] st[e]).0 < st[e + 1].0 by {
        assert(st[e] == st0[e]);
        if e + 1 < d {
            assert(st[e + 1] == st0[e + 1]);
        }
    }
}

/// Finishing the deepest pending line keeps the order.
#[verifier::spinoff_prover]
#[verifier::rlimit(40)]
proof fn lemma_commit_ordered(before: ParserState, after: ParserState, node: NodeRef, li: int)
    requires
        before.ordered(),
        before.peers_stack@.len() == before.parent_stack@.len() + 1,
        before.line_of@.len() == before.tree.nodes@.len(),
        forall|e: int, j: int|
            0 <= e < before.peers_stack@.len() && 0 <= j < before.peers_stack@[e]@.len() ==> (#[trigger] pend(
                before.peers_stack@,
                e,
                j,
            )).0 < before.tree.nodes@.len(),
        forall|i: int, k: int|
            0 <= i < after.tree.nodes@.len() && 0 <= k < after.tree.nodes@[i].children.len() ==> #[trigger] child(
                after.tree.nodes@,
                i,
                k,
            ) < i,
        after.lines@ == before.lines@,
        after.seen@ == before.seen@,
        before.parent_stack@.len() >= 1,
        after.parent_stack@ == before.parent_stack@.drop_last(),
        before.parent_stack@.last().0 == li,
        li < before.seen@,
        after.line_of@ == before.line_of@.push(li),
        node.0 == before.tree.nodes@.len(),
        after.tree.nodes@.len() == node.0 + 1,
        after.tree.nodes@.subrange(0, node.0 as int) == before.tree.nodes@,
        after.tree.nodes@[node.0 as int].children@ == before.peers_stack@.last()@,
        after.peers_stack@.len() == before.peers_stack@.len() - 1,
        forall|e: int| 0 <= e < after.peers_stack@.len() - 1 ==> #[trigger] after.peers_stack@[e] == before.peers_stack@[e],
        after.peers_stack@[after.peers_stack@.len() - 1]@ == before.peers_stack@[after.peers_stack@.len() - 1]@.push(node),
    ensures
        after.ordered(),
{
    reveal(ParserState::ordered);
    let lo0 = before.line_of@;
    let lo = after.line_of@;
    let nodes0 = before.tree.nodes@;
    let nodes = after.tree.nodes@;
    let st0 = before.parent_stack@;
    let st = after.parent_stack@;
    let peers0 = before.peers_stack@;
    let peers = after.peers_stack@;
    let m = st0.len() as int;
    let n = node.0 as int;
    let seen = before.seen@;
    assert(lo.subrange(0, lo0.len() as int) =~= lo0);
    assert(lo[n] == li);
    assert(st0[m - 1].0 == li);
    assert forall|i: int, k: int| 0 <= i < nodes0.len() && 0 <= k < nodes0[i].children.len() implies #[trigger] child(
        nodes0,
        i,
        k,
    ) < i by {
        assert(nodes[i] == nodes0[i]);
        assert(child(nodes, i, k) == child(nodes0, i, k));
    }
    // the subtree of the new node
    assert forall|j: int| 0 <= j < nodes[n].children.len() implies #[trigger] child(nodes, n, j) == pend(peers0, m, j).0
        && 0 <= child(nodes, n, j) < n by {}
    assert forall|j: int|
        0 <= j < nodes[n].children.len() implies rising(lo, subtree(nodes, #[trigger] child(nodes, n, j))) && lines_within(
            lo,
            subtree(nodes, child(nodes, n, j)),
            li + 1,
            seen,
        ) by {
        let c = child(nodes, n, j);
        lemma_subtree_kept(nodes0, nodes, lo0, lo, c);
        assert(rising(lo0, subtree(nodes0, c)));
        assert(lines_within(lo0, subtree(nodes0, c), lo0[c], seen));
        assert(st0[m - 1].0 < lo0[c]);
        let sub = subtree(nodes0, c);
        assert forall|a: int| 0 <= a < sub.len() implies li + 1 <= lo[(#[trigger] sub[a]).0 as int] < seen by {
            assert(lo0[c] <= lo0[sub[a].0 as int]);
        }
    }
    assert forall|j1: int, j2: int|
        0 <= j1 < j2 < nodes[n].children.len() implies lines_within(
            lo,
            subtree(nodes, #[trigger] child(nodes, n, j1)),
            li + 1,
            lo[#[trigger] child(nodes, n, j2)],
        ) by {
        let c1 = child(nodes, n, j1);
        let c2 = child(nodes, n, j2);
        lemma_subtree_kept(nodes0, nodes, lo0, lo, c1);
        assert(lines_within(lo0, subtree(nodes0, c1), 0, lo0[c2]));
        assert(lines_within(lo0, subtree(nodes0, c1), lo0[c1], seen));
        assert(st0[m - 1].0 < lo0[c1]);
        let sub = subtree(nodes0, c1);
        assert forall|a: int| 0 <= a < sub.len() implies li + 1 <= lo[(#[trigger] sub[a]).0 as int] < lo[c2] by {
            assert(lo0[c1] <= lo0[sub[a].0 as int]);
        }
    }
    let len = nodes[n].children.len() as int;
    lemma_below_rising(nodes, lo, n, len, li + 1, seen);
    let b = below(nodes, n, len);
    let sn = subtree(nodes, n);
    assert(sn == seq![NodeRef(n as usize)] + b);
    assert forall|a1: int, a2: int| 0 <= a1 < a2 < sn.len() implies lo[(#[trigger] sn[a1]).0 as int] < lo[(
    #[trigger] sn[a2]).0 as int] by {
        if a1 == 0 {
            assert(sn[a2] == b[a2 - 1]);
        } else {
            assert(sn[a1] == b[a1 - 1] && sn[a2] == b[a2 - 1]);
        }
    }
    assert forall|a: int| 0 <= a < sn.len() implies lo[n] <= lo[(#[trigger] sn[a]).0 as int] < seen by {
        if a > 0 {
            assert(sn[a] == b[a - 1]);
        }
    }
    assert forall|i: int| 0 <= i < nodes.len() implies rising(lo, #[trigger] subtree(nodes, i)) && lines_within(
        lo,
        subtree(nodes, i),
        lo[i],
        seen,
    ) by {
        if i < n {
            lemma_subtree_kept(nodes0, nodes, lo0, lo, i);
            assert(lines_within(lo0, subtree(nodes0, i), lo0[i], seen));
        }
    }
    assert forall|e: int, j1: int, j2: int|
        0 <= e < peers.len() && 0 <= j1 < j2 < peers[e]@.len() implies lines_within(
            lo,
            subtree(nodes, (#[trigger] pend(peers, e, j1)).0 as int),
            0,
            lo[(#[trigger] pend(peers, e, j2)).0 as int],
        ) by {
        let x = pend(peers0, e, j1).0 as int;
        assert(pend(peers, e, j1) == pend(peers0, e, j1));
        lemma_subtree_kept(nodes0, nodes, lo0, lo, x);
        if e == m - 1 && j2 == peers0[e]@.len() {
            assert(pend(peers, e, j2) == node);
            assert(lines_within(lo0, subtree(nodes0, x), 0, st0[e].0 as int));
        } else {
            assert(pend(peers, e, j2) == pend(peers0, e, j2));
            assert(lines_within(lo0, subtree(nodes0, x), 0, lo0[pend(peers0, e, j2).0 as int]));
        }
    }
    assert forall|e: int, j: int|
        0 <= e < st.len() && 0 <= j < peers[e + 1]@.len() implies st[e].0 < lo[(#[trigger] pend(peers, e + 1, j)).0 as int] by {
        assert(st[e] == st0[e]);
        if e + 1 == m - 1 && j == peers0[e + 1]@.len() {
            assert(pend(peers, e + 1, j) == node);
            assert(st0[e].0 < st0[e + 1].0);
        } else {
            assert(pend(peers, e + 1, j) == pend(peers0, e + 1, j));
        }
    }
    assert forall|e: int, j: int|
        0 <= e < st.len() && 0 <= j < peers[e]@.len() implies lines_within(
            lo,
            subtree(nodes, (#[trigger] pend(peers, e, j)).0 as int),
            0,
            st[e].0 as int,
        ) by {
        assert(st[e] == st0[e]);
        assert(pend(peers, e, j) == pend(peers0, e, j));
        let x = pend(peers0, e, j).0 as int;
        lemma_subtree_kept(nodes0, nodes, lo0, lo, x);
        assert(lines_within(lo0, subtree(nodes0, x), 0, st0[e].0 as int));
    }
    assert forall|e: int| 0 <= e && e + 1 < st.len() implies (#[trigger] st[e]).0 < st[e + 1].0 by {
        assert(st[e] == st0[e] && st[e + 1] == st0[e + 1]);
    }
}

proof fn lemma_last_at_depth(ls: Seq<Seq<char>>, n: int, d: int)
    ensures
        last_at_depth(ls, n, d) matches Some(p) ==> 0 <= p < n && !blank(ls[p]) && depth_of(ls[p]) == d,
    decreases n,
{
    if n > 0 {
        lemma_last_at_depth(ls, n - 1, d);
    }
}

/// A line's parent line comes before it, one level up.
pub proof fn lemma_parent_line(ls: Seq<Seq<char>>, k: int)
    ensures
        parent_line(ls, k) matches Some(p) ==> 0 <= p < k && !blank(ls[p]) && depth_of(ls[p]) == depth_of(ls[k]) - 1,
{
    reveal(parent_line);
    if depth_of(ls[k]) != 0 {
        lemma_last_at_depth(ls, k, depth_of(ls[k]) - 1);
    }
}

impl ParserState {
    /// Nodes and pending lines stand for distinct lines already read.
    spec fn inv(&self) -> bool {
        let ls = self.lines@;
        let lo = self.line_of@;
        let st = self.parent_stack@;
        &&& lo.len() == self.tree.nodes@.len()
        &&& 0 <= self.seen@ <= ls.len()
        &&& forall|i: int|
            0 <= i < lo.len() ==> 0 <= #[trigger] lo[i] < self.seen@ && !blank(ls[lo[i]]) && self.tree.nodes@[i].id@
                == line_id(ls[lo[i]])
        &&& forall|i1: int, i2: int| 0 <= i1 < lo.len() && 0 <= i2 < lo.len() && i1 != i2 ==> #[trigger] lo[i1] != #[trigger] lo[i2]
        &&& forall|e: int|
            0 <= e < st.len() ==> 0 <= (#[trigger] st[e]).0 < self.seen@ && !blank(ls[st[e].0 as int]) && parsed_as(
                st[e].1,
                line_scan(ls[st[e].0 as int]),
            )
        &&& forall|e: int, i: int| 0 <= e < st.len() && 0 <= i < lo.len() ==> (#[trigger] st[e]).0 != #[trigger] lo[i]
        &&& forall|e1: int, e2: int| 0 <= e1 < st.len() && 0 <= e2 < st.len() && e1 != e2 ==> (#[trigger] st[e1]).0 != (#[trigger] st[e2]).0
        &&& self.tree.nodes@.len() + st.len() <= self.seen@
        &&& forall|i: int| 0 <= i < lo.len() ==> #[trigger] type_ok(ls[lo[i]])
        &&& forall|i: int| 0 <= i < lo.len() ==> node_is_line(self.tree.nodes@[i], #[trigger] ls[lo[i]])
        &&& forall|k: int| 0 <= k < self.seen@ && !blank(ls[k]) ==> #[trigger] accounted(lo, st, k)
    }

    /// Pending lines form the path of open levels, and every node's
    /// children are the lines that hang under its line, in order.
    #[verifier::opaque]
    spec fn shape(&self) -> bool {
        let ls = self.lines@;
        let lo = self.line_of@;
        let st = self.parent_stack@;
        let peers = self.peers_stack@;
        let nodes = self.tree.nodes@;
        &&& forall|e: int|
            0 <= e < st.len() ==> depth_of(ls[(#[trigger] st[e]).0 as int]) == e && last_at_depth(ls, self.seen@, e)
                == Some(st[e].0 as int) && parent_line(ls, st[e].0 as int) == if e == 0 {
                None
            } else {
                Some(st[e - 1].0 as int)
            }
        &&& forall|e: int, j: int|
            0 <= e < peers.len() && 0 <= j < peers[e]@.len() ==> parent_line(ls, lo[#[trigger] pend(peers, e, j).0 as int])
                == if e == 0 {
                None
            } else {
                Some(st[e - 1].0 as int)
            }
        &&& forall|e: int, j1: int, j2: int|
            0 <= e < peers.len() && 0 <= j1 < j2 < peers[e]@.len() ==> lo[#[trigger] pend(peers, e, j1).0 as int]
                < lo[#[trigger] pend(peers, e, j2).0 as int]
        &&& forall|e: int, j: int|
            0 <= e < st.len() && 0 <= j < peers[e]@.len() ==> lo[#[trigger] pend(peers, e, j).0 as int] < st[e].0
        &&& forall|i: int, k: int|
            0 <= i < nodes.len() && 0 <= k < nodes[i].children.len() ==> parent_line(ls, lo[#[trigger] child(nodes, i, k)])
                == Some(lo[i])
        &&& forall|i: int, a: int, b: int|
            0 <= i < nodes.len() && 0 <= a < b < nodes[i].children.len() ==> lo[#[trigger] child(nodes, i, a)]
                < lo[#[trigger] child(nodes, i, b)]
    }

    /// Every node's subtree lists its lines rising, from its own line on;
    /// a pending node's subtree lies before its later siblings, after the
    /// line it hangs under, and before the pending line of its level.
    #[verifier::opaque]
    spec fn ordered(&self) -> bool {
        let lo = self.line_of@;
        let st = self.parent_stack@;
        let peers = self.peers_stack@;
        let nodes = self.tree.nodes@;
        &&& forall|i: int|
            0 <= i < nodes.len() ==> rising(lo, #[trigger] subtree(nodes, i)) && lines_within(
                lo,
                subtree(nodes, i),
                lo[i],
                self.seen@,
            )
        &&& forall|e: int, j1: int, j2: int|
            0 <= e < peers.len() && 0 <= j1 < j2 < peers[e]@.len() ==> lines_within(
                lo,
                subtree(nodes, (#[trigger] pend(peers, e, j1)).0 as int),
                0,
                lo[(#[trigger] pend(peers, e, j2)).0 as int],
            )
        &&& forall|e: int, j: int|
            0 <= e < st.len() && 0 <= j < peers[e + 1]@.len() ==> st[e].0 < lo[(#[trigger] pend(peers, e + 1, j)).0 as int]
        &&& forall|e: int, j: int|
            0 <= e < st.len() && 0 <= j < peers[e]@.len() ==> lines_within(
                lo,
                subtree(nodes, (#[trigger] pend(peers, e, j)).0 as int),
                0,
                st[e].0 as int,
            )
        &&& forall|e: int| 0 <= e && e + 1 < st.len() ==> (#[trigger] st[e]).0 < st[e + 1].0
    }

    spec fn wf(&self) -> bool {
        let peers = self.peers_stack@;
        &&& self.tree.wf()
        &&& ids_distinct(self.tree.nodes@)
        &&& forall|i: int| 0 <= i < self.tree.nodes@.len() ==> #[trigger] self.tree.nodes@[i].id@ != "00000"@
        &&& peers.len() == self.parent_stack@.len() + 1
        &&& forall|i: int| 0 <= i < self.parent_stack@.len() ==> (#[trigger] self.parent_stack@[i]).1.id is Some
        &&& forall|i: int, j: int|
            0 <= i < peers.len() && 0 <= j < peers[i]@.len() ==> self.tree.free(#[trigger] pend(peers, i, j))
        &&& forall|i1: int, j1: int, i2: int, j2: int|
            #![trigger pend(peers, i1, j1), pend(peers, i2, j2)]
            0 <= i1 < peers.len() && 0 <= j1 < peers[i1]@.len() && 0 <= i2 < peers.len() && 0 <= j2
                < peers[i2]@.len() && (i1 != i2 || j1 != j2) ==> pend(peers, i1, j1) != pend(peers, i2, j2)
        &&& forall|x: int|
            #![trigger self.tree.owned@.contains(x)]
            0 <= x < self.tree.nodes@.len() && !self.tree.owned@.contains(x) ==> pending(peers, x)
    }

    /// Finishes every pending line at depth `indent` or deeper, handing each
    /// finished node to the level above it.
    #[verifier::spinoff_prover]
    fn commit_prev(&mut self, indent: usize) -> (r: Result<(), String>)
        requires
            old(self).wf(),
            old(self).inv(),
            old(self).shape(),
            old(self).ordered(),
        ensures
            r is Ok ==> final(self).wf() && final(self).inv() && final(self).shape() && final(self).ordered(),
            final(self).lines@ == old(self).lines@,
            final(self).seen@ == old(self).seen@,
            lines_valid_upto(old(self).lines@, old(self).seen@) && old(self).lines@.len() < usize::MAX ==> r is Ok,
            r matches Err(m) ==> commit_failure(old(self).lines@, old(self).seen@, m@),
            r is Ok ==> final(self).parent_stack@.len() <= indent,
            r is Ok ==> final(self).parent_stack@.len() == if indent < old(self).parent_stack@.len() {
                indent as int
            } else {
                old(self).parent_stack@.len() as int
            },
    {
        while indent < self.parent_stack.len()
            invariant
                self.wf(),
                self.inv(),
                self.shape(),
                self.ordered(),
                self.lines@ == old(self).lines@,
                self.seen@ == old(self).seen@,
                old(self).parent_stack@.len() >= self.parent_stack@.len(),
                indent < old(self).parent_stack@.len() ==> indent <= self.parent_stack@.len(),
                indent >= old(self).parent_stack@.len() ==> self.parent_stack@.len() == old(self).parent_stack@.len(),
            decreases self.parent_stack@.len(),
        {
            let ghost before = *self;
            let children = self.peers_stack.pop().unwrap();
            let (lineidx, parsed) = self.parent_stack.pop().unwrap();
            proof {
                let peers = before.peers_stack@;
                let last = peers.len() - 1;
                assert(children == peers[last]);
                assert forall|k: int| 0 <= k < children@.len() implies before.tree.free(#[trigger] children@[k]) by {
                    assert(pend(peers, last, k) == children@[k]);
                }
                assert forall|a: int, b: int| 0 <= a < b < children@.len() implies children@[a] != children@[b] by {
                    assert(pend(peers, last, a) == children@[a]);
                    assert(pend(peers, last, b) == children@[b]);
                }
                assert(before.parent_stack@[before.parent_stack@.len() - 1] == (lineidx, parsed));
            }
            let ghost ls = self.lines@;
            let ghost li = lineidx as int;
            let ghost scan_li = line_scan(ls[li]);
            proof {
                let e = before.parent_stack@.len() - 1;
                assert(before.parent_stack@[e].0 == lineidx);
                assert(!blank(ls[li]) && parsed_as(parsed, scan_li));
                assert(0 <= li < ls.len());
            }
            let ParsedLine { id, text, node_type, .. } = parsed;
            let id = id.unwrap();
            let line_no = if lineidx < usize::MAX { lineidx + 1 } else { lineidx };
            let nodetype = match node_type_from_str(node_type.as_str()) {
                Some(t) => t,
                None => {
                    proof {
                        if lines_valid_upto(ls, self.seen@) {
                            assert(type_ok(ls[li]));
                        }
                        if lineidx < usize::MAX {
                            assert(!type_ok(ls[li]));
                        }
                    }
                    return Err(line_error(line_no, "Invalid node type"));
                },
            };
            proof {
                reveal_strlit("project");
                reveal_strlit("task");
                assert(node_type@ == scan_li.node_type);
                assert(type_ok(ls[li]));
                assert(nodetype == type_of_line(ls[li]));
                assert(opt_view(text) == scan_li.text);
            }
            if self.tree.has_id(id.as_str()) || same_text(id.as_str(), "00000") {
                proof {
                    assert(line_id(ls[li]) == id@);
                    if exists|i: int| 0 <= i < self.tree.nodes@.len() && #[trigger] self.tree.nodes@[i].id@ == id@ {
                        let i = choose|i: int| 0 <= i < self.tree.nodes@.len() && #[trigger] self.tree.nodes@[i].id@ == id@;
                        let k = self.line_of@[i];
                        let e = before.parent_stack@.len() - 1;
                        assert(before.parent_stack@[e].0 != self.line_of@[i]);
                        assert(line_id(ls[k]) == line_id(ls[li]));
                    }
                    if lines_valid_upto(ls, self.seen@) {
                        assert(type_ok(ls[li]));
                        assert(line_id(ls[li]) != "00000"@);
                        if exists|i: int| 0 <= i < self.tree.nodes@.len() && #[trigger] self.tree.nodes@[i].id@ == id@ {
                            let i = choose|i: int| 0 <= i < self.tree.nodes@.len() && #[trigger] self.tree.nodes@[i].id@ == id@;
                            let k = self.line_of@[i];
                            let e = before.parent_stack@.len() - 1;
                            assert(before.parent_stack@[e].0 != self.line_of@[i]);
                            assert(line_id(ls[k]) == id@);
                            assert(line_id(ls[k]) != line_id(ls[li]));
                        }
                    }
                }
                return Err(line_error(line_no, "Id duplicated in tree"));
            }
            if self.tree.len() == usize::MAX {
                proof {
                    assert(ls.len() >= usize::MAX);
                }
                return Err(line_error(line_no, "Tree too large"));
            }
            let ghost old_tree = self.tree;
            let ghost id_text = id@;
            proof {
                assert(forall|i: int| 0 <= i < old_tree.nodes@.len() ==> #[trigger] old_tree.nodes@[i].id@ != id_text);
                assert(id_text != "00000"@);
            }
            let node = Node::new_parent(&mut self.tree, nodetype, id, text, children);
            let mut top = self.peers_stack.pop().unwrap();
            top.push(node);
            self.peers_stack.push(top);
            let ghost lo0 = self.line_of@;
            self.line_of = Ghost(lo0.push(li));
            proof {
                let lo = self.line_of@;
                let st = self.parent_stack@;
                let st0 = before.parent_stack@;
                let nodes = self.tree.nodes@;
                assert(st =~= st0.drop_last());
                assert(nodes[node.0 as int].id@ == id_text);
                assert(id_text == line_id(ls[li]));
                assert forall|i: int|
                    0 <= i < lo.len() implies 0 <= #[trigger] lo[i] < self.seen@ && !blank(ls[lo[i]]) && nodes[i].id@
                        == line_id(ls[lo[i]]) by {
                    if i < lo0.len() {
                        assert(lo[i] == lo0[i]);
                        assert(nodes[i] == old_tree.nodes@[i]);
                    }
                }
                assert forall|i1: int, i2: int| 0 <= i1 < lo.len() && 0 <= i2 < lo.len() && i1 != i2 implies #[trigger] lo[i1]
                    != #[trigger] lo[i2] by {
                    let e = st0.len() - 1;
                    if i1 < lo0.len() && i2 < lo0.len() {
                        assert(lo[i1] == lo0[i1] && lo[i2] == lo0[i2]);
                    } else if i1 < lo0.len() {
                        assert(st0[e].0 != lo0[i1]);
                    } else if i2 < lo0.len() {
                        assert(st0[e].0 != lo0[i2]);
                    }
                }
                assert forall|e: int| 0 <= e < st.len() implies 0 <= (#[trigger] st[e]).0 < self.seen@ && !blank(
                    ls[st[e].0 as int],
                ) && parsed_as(st[e].1, line_scan(ls[st[e].0 as int])) by {
                    assert(st[e] == st0[e]);
                }
                assert forall|e: int, i: int| 0 <= e < st.len() && 0 <= i < lo.len() implies (#[trigger] st[e]).0
                    != #[trigger] lo[i] by {
                    assert(st[e] == st0[e]);
                    if i < lo0.len() {
                        assert(lo[i] == lo0[i]);
                    } else {
                        assert(st0[st0.len() - 1].0 == li);
                        assert(st0[e].0 != st0[st0.len() - 1].0);
                    }
                }
                assert forall|e1: int, e2: int| 0 <= e1 < st.len() && 0 <= e2 < st.len() && e1 != e2 implies (#[trigger] st[e1]).0
                    != (#[trigger] st[e2]).0 by {
                    assert(st[e1] == st0[e1] && st[e2] == st0[e2]);
                }
                assert(type_ok(ls[li]));
                assert forall|i: int| 0 <= i < lo.len() implies #[trigger] type_ok(ls[lo[i]]) by {
                    if i < lo0.len() {
                        assert(lo[i] == lo0[i]);
                    }
                }
                assert(node_is_line(nodes[node.0 as int], ls[li]));
                assert forall|i: int| 0 <= i < lo.len() implies node_is_line(nodes[i], #[trigger] ls[lo[i]]) by {
                    if i < lo0.len() {
                        assert(lo[i] == lo0[i]);
                        assert(nodes[i] == old_tree.nodes@[i]);
                    }
                }
                assert forall|k: int| 0 <= k < self.seen@ && !blank(ls[k]) implies #[trigger] accounted(lo, st, k) by {
                    assert(accounted(lo0, st0, k));
                    if exists|i: int| 0 <= i < lo0.len() && #[trigger] lo0[i] == k {
                        let i = choose|i: int| 0 <= i < lo0.len() && #[trigger] lo0[i] == k;
                        assert(lo[i] == k);
                    } else {
                        let e = choose|e: int| 0 <= e < st0.len() && (#[trigger] st0[e]).0 == k;
                        if e < st.len() {
                            assert(st[e] == st0[e]);
                        } else {
                            assert(lo[lo0.len() as int] == k);
                        }
                    }
                }
            }
            proof {
                let peers0 = before.peers_stack@;
                let peers = self.peers_stack@;
                let nodes = self.tree.nodes@;
                let last = peers.len() - 1;
                let moved = children@.map_values(|c: NodeRef| c.0 as int).to_set();
                assert(self.tree.owned@ == old_tree.owned@ + moved);
                assert forall|i: int, j: int| 0 <= i < peers.len() && 0 <= j < peers[i]@.len()
                    implies self.tree.free(#[trigger] pend(peers, i, j)) by {
                    if i == last && j == peers[i]@.len() - 1 {
                        assert(pend(peers, i, j) == node);
                    } else {
                        assert(pend(peers, i, j) == pend(peers0, i, j));
                        assert(old_tree.free(pend(peers0, i, j)));
                        if moved.contains(pend(peers, i, j).0 as int) {
                            let mv = children@.map_values(|c: NodeRef| c.0 as int);
                            let w = choose|w: int| 0 <= w < mv.len() && #[trigger] mv[w] == pend(peers, i, j).0 as int;
                            assert(pend(peers0, last + 1, w) == children@[w]);
                            assert(pend(peers0, i, j) != pend(peers0, last + 1, w));
                        }
                    }
                }
                assert forall|i1: int, j1: int, i2: int, j2: int|
                    0 <= i1 < peers.len() && 0 <= j1 < peers[i1]@.len() && 0 <= i2 < peers.len() && 0 <= j2
                        < peers[i2]@.len() && (i1 != i2 || j1 != j2) implies #[trigger] pend(peers, i1, j1) != #[trigger] pend(peers, i2, j2) by {
                    let n1 = i1 == last && j1 == peers[i1]@.len() - 1;
                    let n2 = i2 == last && j2 == peers[i2]@.len() - 1;
                    if !n1 {
                        assert(pend(peers, i1, j1) == pend(peers0, i1, j1));
                        assert(old_tree.valid(pend(peers0, i1, j1)));
                    }
                    if !n2 {
                        assert(pend(peers, i2, j2) == pend(peers0, i2, j2));
                        assert(old_tree.valid(pend(peers0, i2, j2)));
                    }
                }
                assert(nodes[node.0 as int].id@ == id_text);
                assert(old_tree.nodes@ == before.tree.nodes@);
                assert(ids_distinct(before.tree.nodes@));
                assert forall|a: int, b: int| 0 <= a < b < nodes.len() implies #[trigger] nodes[a].id@ != #[trigger] nodes[b].id@ by {
                    assert(nodes[a] == old_tree.nodes@[a]);
                    if b < old_tree.nodes@.len() {
                        assert(nodes[b] == old_tree.nodes@[b]);
                        assert(before.tree.nodes@[a].id@ != before.tree.nodes@[b].id@);
                    } else {
                        assert(b == node.0);
                        assert(old_tree.nodes@[a].id@ != id_text);
                    }
                }
                assert forall|i: int| 0 <= i < nodes.len() implies #[trigger] nodes[i].id@ != "00000"@ by {
                    if i < old_tree.nodes@.len() {
                        assert(nodes[i] == old_tree.nodes@[i]);
                        assert(before.tree.nodes@[i].id@ != "00000"@);
                    } else {
                        assert(i == node.0);
                    }
                }
                assert forall|i: int| 0 <= i < self.parent_stack@.len() implies (#[trigger] self.parent_stack@[i]).1.id is Some by {
                    assert(self.parent_stack@[i] == before.parent_stack@[i]);
                }
                assert forall|x: int|
                    #![trigger self.tree.owned@.contains(x)]
                    0 <= x < self.tree.nodes@.len() && !self.tree.owned@.contains(x) implies pending(peers, x) by {
                    if x == node.0 {
                        assert(pend(peers, last, peers[last]@.len() - 1) == node);
                    } else {
                        assert(x < old_tree.nodes@.len());
                        assert(!old_tree.owned@.contains(x));
                        assert(pending(peers0, x));
                        let (i, j) = choose|i: int, j: int|
                            0 <= i < peers0.len() && 0 <= j < peers0[i]@.len() && #[trigger] pend(peers0, i, j).0 == x;
                        if i == last + 1 {
                            assert(pend(peers0, i, j) == children@[j]);
                            let mv = children@.map_values(|c: NodeRef| c.0 as int);
                            assert(mv[j] == x);
                            assert(moved.contains(x));
                        }
                        assert(pend(peers, i, j) == pend(peers0, i, j));
                    }
                }
            }
            proof {
                assert forall|e: int, j: int|
                    0 <= e < before.peers_stack@.len() && 0 <= j < before.peers_stack@[e]@.len() implies (#[trigger] pend(
                        before.peers_stack@,
                        e,
                        j,
                    )).0 < before.tree.nodes@.len() by {
                    assert(before.tree.free(pend(before.peers_stack@, e, j)));
                }
                assert(before.peers_stack@.len() == before.parent_stack@.len() + 1);
                lemma_commit_shape(before, *self, node, li, old_tree);
                assert(self.tree.wf());
                lemma_commit_ordered(before, *self, node, li);
            }
        }
        Ok(())
    }
}

/// A line that holds only white space.
pub open spec fn blank(l: Seq<char>) -> bool {
    forall|i: int| 0 <= i < l.len() ==> is_space(#[trigger] l[i])
}

/// How deep the next line may go after the first `k` lines: one level below
/// the last non-blank line, or the top level.
pub open spec fn open_depth(ls: Seq<Seq<char>>, k: int) -> int
    decreases k,
{
    if k <= 0 {
        0
    } else if blank(ls[k - 1]) {
        open_depth(ls, k - 1)
    } else {
        match parse_line_spec(ls[k - 1]) {
            Ok(s) => s.indent + 1int,
            Err(_) => 0,
        }
    }
}

/// Line `k` is blank, or reads as a node line with an id, at most one level
/// deeper than the line before it.
pub open spec fn line_fits(ls: Seq<Seq<char>>, k: int) -> bool {
    blank(ls[k]) || (parse_line_spec(ls[k]) matches Ok(s) && !s.is_metadata && s.id is Some && s.indent
        <= open_depth(ls, k))
}

/// A line that does not fit, after lines that all do, is the only line
/// whose predecessors are all valid and which does not fit.
proof fn lemma_first_misfit(ls: Seq<Seq<char>>, j: int)
    requires
        0 <= j < ls.len(),
        !line_fits(ls, j),
        forall|k: int| 0 <= k < j ==> #[trigger] line_fits(ls, k),
    ensures
        !lines_valid(ls),
        forall|k: int| 0 <= k < ls.len() && lines_valid_upto(ls, k) && !line_fits(ls, k) ==> k == j,
{
    assert forall|k: int| 0 <= k < ls.len() && lines_valid_upto(ls, k) && !line_fits(ls, k) implies k == j by {
        if k > j {
            assert(line_fits(ls, j));
        }
    }
}

/// Validity of a longer prefix gives validity of a shorter one.
proof fn lemma_upto_mono(ls: Seq<Seq<char>>, j: int, k: int)
    requires
        j <= k,
        lines_valid_upto(ls, k),
    ensures
        lines_valid_upto(ls, j),
{
    assert forall|x: int| 0 <= x < j implies #[trigger] line_fits(ls, x) by {
        assert(line_fits(ls, x));
    }
    assert forall|x: int| 0 <= x < j && !blank(ls[x]) implies #[trigger] type_ok(ls[x]) && line_id(ls[x]) != "00000"@ by {
        assert(type_ok(ls[x]));
    }
    assert forall|k1: int, k2: int|
        0 <= k1 < j && 0 <= k2 < j && k1 != k2 && !blank(ls[k1]) && !blank(ls[k2]) implies #[trigger] line_id(ls[k1])
            != #[trigger] line_id(ls[k2]) by {
        assert(line_id(ls[k1]) != line_id(ls[k2]));
    }
}

/// Builds a tree from its indented description: one node per non-blank
/// line, four spaces of indentation per level below the root.
#[verifier::spinoff_prover]
/// What building a tree from `text` gives: on success a well-formed tree
/// with every node under the root; success exactly when the description is
/// valid; and for the first line that does not fit, its numbered error.
pub open spec fn parse_outcome(text: Seq<char>, r: Result<(Tree, NodeRef), String>) -> bool {
    &&& (r matches Ok((tree, root)) ==> {
        &&& tree.wf()
        &&& tree.valid(root)
        &&& tree.nodes@[root.0 as int].nodetype == NodeType::Root
        &&& ids_distinct(tree.nodes@)
        &&& root.0 == tree.nodes@.len() - 1
        &&& tree.nodes@[root.0 as int].subtreesize == tree.nodes@.len() - 1
    })
    &&& (r matches Ok((tree, root)) ==> tree.nodes@[root.0 as int].id@ == "00000"@)
    &&& (r is Ok ==> forall|k: int| 0 <= k < text_lines(text).len() ==> #[trigger] line_fits(text_lines(text), k))
    &&& (lines_valid(text_lines(text)) && text_lines(text).len() < usize::MAX ==> r is Ok)
    &&& (r is Ok ==> lines_valid(text_lines(text)))
    &&& (r is Err && (forall|j: int| 0 <= j < text_lines(text).len() ==> #[trigger] line_fits(text_lines(text), j))
        ==> commit_failure(text_lines(text), text_lines(text).len() as int, r->Err_0@))
    &&& (forall|k: int|
        only_bad_type(text_lines(text), k) && text_lines(text).len() < usize::MAX ==> (r matches Err(m) && m@
            == #[trigger] line_message(k, "Invalid node type"@)))
    &&& (forall|k: int|
        only_root_id(text_lines(text), k) && text_lines(text).len() < usize::MAX ==> (r matches Err(m) && m@
            == #[trigger] line_message(k, "Id duplicated in tree"@)))
    &&& (r matches Ok((tree, root)) ==> exists|lo: Seq<int>|
        {
            &&& lo.len() == root.0
            &&& forall|i: int|
                0 <= i < lo.len() ==> 0 <= #[trigger] lo[i] < text_lines(text).len() && !blank(text_lines(text)[lo[i]])
                    && node_is_line(tree.nodes@[i], text_lines(text)[lo[i]])
            &&& forall|i1: int, i2: int| 0 <= i1 < lo.len() && 0 <= i2 < lo.len() && i1 != i2 ==> #[trigger] lo[i1] != #[trigger] lo[i2]
            &&& forall|k: int|
                0 <= k < text_lines(text).len() && !blank(text_lines(text)[k]) ==> exists|i: int|
                    0 <= i < lo.len() && #[trigger] lo[i] == k
            &&& forall|i: int, c: int|
                0 <= i < lo.len() && 0 <= c < tree.nodes@[i].children.len() ==> parent_line(
                    text_lines(text),
                    lo[#[trigger] child(tree.nodes@, i, c)],
                ) == Some(lo[i])
            &&& forall|i: int| 0 <= i < lo.len() ==> #[trigger] has_parent(tree.nodes@, i)
            &&& rising(lo, crate::tree::descendants(tree.nodes@, root.0 as int))
            &&& crate::tree::descendants(tree.nodes@, root.0 as int).len() == lo.len()
            &&& forall|c: int|
                0 <= c < tree.nodes@[root.0 as int].children.len() ==> parent_line(
                    text_lines(text),
                    lo[#[trigger] child(tree.nodes@, root.0 as int, c)],
                ) is None
            &&& forall|i: int, a: int, b: int|
                0 <= i < tree.nodes@.len() && 0 <= a < b < tree.nodes@[i].children.len() ==> lo[#[trigger] child(
                    tree.nodes@,
                    i,
                    a,
                )] < lo[#[trigger] child(tree.nodes@, i, b)]
        })
    &&& (forall|k: int|
        0 <= k < text_lines(text).len() && lines_valid_upto(text_lines(text), k) && !line_fits(
            text_lines(text),
            k,
        ) && text_lines(text).len() < usize::MAX ==> (r matches Err(m) && m@ == "Line "@ + decimal(
            (k + 1) as nat,
        ) + ": "@ + #[trigger] misfit_text(text_lines(text), k)))
}

pub fn parse(lines: &str) -> (r: Result<(Tree, NodeRef), String>)
    ensures
        parse_outcome(lines@, r),
{
    let all = split_lines(lines);
    let ghost ls = text_lines(lines@);
    let mut state = ParserState {
        parent_stack: Vec::new(),
        peers_stack: vec![Vec::new()],
        tree: Tree::new(),
        lines: Ghost(ls),
        line_of: Ghost(Seq::empty()),
        seen: Ghost(0),
    };
    proof {
        reveal(ParserState::shape);
        reveal(ParserState::ordered);
        assert(state.peers_stack@[0]@.len() == 0);
    }
    let mut lineidx: usize = 0;
    while lineidx < all.len()
        invariant
            state.wf(),
            state.inv(),
            state.shape(),
            state.ordered(),
            state.lines@ == ls,
            state.seen@ == lineidx,
            ls == text_lines(lines@),
            all@.map_values(|l: String| l@) == ls,
            ls.len() == all@.len(),
            lineidx <= all@.len(),
            state.parent_stack@.len() == open_depth(ls, lineidx as int),
            forall|k: int| 0 <= k < lineidx ==> #[trigger] line_fits(ls, k),
        decreases all@.len() - lineidx,
    {
        let line = all[lineidx].as_str();
        assert(ls[lineidx as int] == line@);
        let line_no = lineidx + 1;
        if is_blank(line) {
            let ghost before_blank = state;
            state.seen = Ghost(lineidx + 1);
            proof {
                lemma_blank_shape(before_blank, state);
                lemma_blank_ordered(before_blank, state);
                assert forall|k: int| 0 <= k < state.seen@ && !blank(ls[k]) implies #[trigger] accounted(
                    state.line_of@,
                    state.parent_stack@,
                    k,
                ) by {
                    assert(k < lineidx);
                    assert(accounted(before_blank.line_of@, before_blank.parent_stack@, k));
                }
            }
            lineidx = lineidx + 1;
            continue;
        }
        let parsed = match parse_line(line) {
            Ok(p) => p,
            Err(e) => {
                proof {
                    assert(!line_fits(ls, lineidx as int));
                    lemma_first_misfit(ls, lineidx as int);
                }
                return Err(line_error(line_no, e.message()));
            },
        };
        if parsed.is_metadata {
            proof {
                assert(!line_fits(ls, lineidx as int));
                lemma_first_misfit(ls, lineidx as int);
                assert(!fits_and_distinct(ls));
            }
            return Err(line_error(line_no, "Metadata not allowed yet"));
        }
        if parsed.id.is_none() {
            proof {
                assert(!line_fits(ls, lineidx as int));
                lemma_first_misfit(ls, lineidx as int);
                assert(!fits_and_distinct(ls));
            }
            return Err(line_error(line_no, "ID required"));
        }
        if parsed.indent > state.parent_stack.len() {
            proof {
                assert(!line_fits(ls, lineidx as int));
                lemma_first_misfit(ls, lineidx as int);
                assert(!fits_and_distinct(ls));
            }
            return Err(line_error(line_no, "Indent too deep"));
        }
        match state.commit_prev(parsed.indent) {
            Ok(()) => {},
            Err(e) => {
                proof {
                    assert forall|k: int|
                        0 <= k < ls.len() && lines_valid_upto(ls, k) && !line_fits(ls, k) && ls.len() < usize::MAX
                        implies false by {
                        if k >= lineidx {
                            lemma_upto_mono(ls, lineidx as int, k);
                        }
                    }
                    if lines_valid(ls) {
                        lemma_upto_mono(ls, lineidx as int, ls.len() as int);
                    }
                    lemma_failure_text(ls, lineidx as int, e@);
                    lemma_failure_mono(ls, lineidx as int, ls.len() as int, e@);
                }
                return Err(e);
            },
        }
        let ghost before = state;
        let ghost parsed_view = parsed;
        state.parent_stack.push((lineidx, parsed));
        state.peers_stack.push(Vec::new());
        state.seen = Ghost(lineidx + 1);
        proof {
            reveal(depth_of);
            assert(depth_of(ls[lineidx as int]) == parsed_view.indent);
            assert forall|e: int, j: int|
                0 <= e < before.peers_stack@.len() && 0 <= j < before.peers_stack@[e]@.len() implies (#[trigger] pend(
                    before.peers_stack@,
                    e,
                    j,
                )).0 < before.line_of@.len() by {
                assert(before.tree.free(pend(before.peers_stack@, e, j)));
            }
            assert forall|x: int| 0 <= x < before.line_of@.len() implies #[trigger] before.line_of@[x] < lineidx by {}
            assert(state.parent_stack@.drop_last() =~= before.parent_stack@);
            assert(state.peers_stack@.drop_last() =~= before.peers_stack@);
            lemma_push_shape(before, state, lineidx as int);
            assert forall|e: int| 0 <= e < before.parent_stack@.len() implies (#[trigger] before.parent_stack@[e]).0 < lineidx by {}
            assert forall|x: int| 0 <= x < before.line_of@.len() implies 0 <= #[trigger] before.line_of@[x] by {}
            lemma_push_ordered(before, state, lineidx as int);
            assert(open_depth(ls, lineidx + 1) == parsed_view.indent + 1);
            assert(line_fits(ls, lineidx as int));
            let st = state.parent_stack@;
            let st0 = before.parent_stack@;
            let lo = state.line_of@;
            assert(line_scan(ls[lineidx as int]) == parse_line_spec(ls[lineidx as int])->Ok_0);
            assert forall|e: int| 0 <= e < st.len() implies 0 <= (#[trigger] st[e]).0 < state.seen@ && !blank(
                ls[st[e].0 as int],
            ) && parsed_as(st[e].1, line_scan(ls[st[e].0 as int])) by {
                if e < st0.len() {
                    assert(st[e] == st0[e]);
                }
            }
            assert forall|e: int, i: int| 0 <= e < st.len() && 0 <= i < lo.len() implies (#[trigger] st[e]).0
                != #[trigger] lo[i] by {
                if e < st0.len() {
                    assert(st[e] == st0[e]);
                }
            }
            assert forall|e1: int, e2: int| 0 <= e1 < st.len() && 0 <= e2 < st.len() && e1 != e2 implies (#[trigger] st[e1]).0
                != (#[trigger] st[e2]).0 by {
                if e1 < st0.len() {
                    assert(st[e1] == st0[e1]);
                }
                if e2 < st0.len() {
                    assert(st[e2] == st0[e2]);
                }
            }
            assert forall|k: int| 0 <= k < state.seen@ && !blank(ls[k]) implies #[trigger] accounted(lo, st, k) by {
                if k == lineidx {
                    assert(st[st0.len() as int].0 == k);
                } else {
                    assert(accounted(lo, st0, k));
                    if exists|e: int| 0 <= e < st0.len() && (#[trigger] st0[e]).0 == k {
                        let e = choose|e: int| 0 <= e < st0.len() && (#[trigger] st0[e]).0 == k;
                        assert(st[e] == st0[e]);
                    }
                }
            }
        }
        proof {
            let peers = state.peers_stack@;
            let peers0 = before.peers_stack@;
            assert forall|i: int, j: int| 0 <= i < peers.len() && 0 <= j < peers[i]@.len()
                implies state.tree.free(#[trigger] pend(peers, i, j)) by {
                assert(pend(peers, i, j) == pend(peers0, i, j));
            }
            assert forall|i1: int, j1: int, i2: int, j2: int|
                0 <= i1 < peers.len() && 0 <= j1 < peers[i1]@.len() && 0 <= i2 < peers.len() && 0 <= j2
                    < peers[i2]@.len() && (i1 != i2 || j1 != j2) implies #[trigger] pend(peers, i1, j1) != #[trigger] pend(peers, i2, j2) by {
                assert(pend(peers, i1, j1) == pend(peers0, i1, j1));
                assert(pend(peers, i2, j2) == pend(peers0, i2, j2));
            }
            assert forall|i: int| 0 <= i < state.parent_stack@.len() implies (#[trigger] state.parent_stack@[i]).1.id is Some by {
                if i < before.parent_stack@.len() {
                    assert(state.parent_stack@[i] == before.parent_stack@[i]);
                }
            }
            assert forall|x: int|
                #![trigger state.tree.owned@.contains(x)]
                0 <= x < state.tree.nodes@.len() && !state.tree.owned@.contains(x) implies pending(peers, x) by {
                assert(pending(peers0, x));
                let (i, j) = choose|i: int, j: int|
                    0 <= i < peers0.len() && 0 <= j < peers0[i]@.len() && #[trigger] pend(peers0, i, j).0 == x;
                assert(pend(peers, i, j) == pend(peers0, i, j));
            }
        }
        lineidx = lineidx + 1;
    }
    match state.commit_prev(0) {
        Ok(()) => {},
        Err(e) => {
            proof {
                lemma_failure_text(ls, ls.len() as int, e@);
            }
            return Err(e);
        },
    }
    let ghost before = state;
    let children = state.peers_stack.pop().unwrap();
    if state.tree.len() == usize::MAX {
        proof {
            assert(state.tree.nodes@.len() <= ls.len());
            assert(ls.len() >= usize::MAX);
        }
        return Err(line_error(all.len(), "Tree too large"));
    }
    proof {
        let peers = before.peers_stack@;
        assert(children == peers[0]);
        assert forall|k: int| 0 <= k < children@.len() implies state.tree.free(#[trigger] children@[k]) by {
            assert(pend(peers, 0, k) == children@[k]);
        }
        assert forall|a: int, b: int| 0 <= a < b < children@.len() implies children@[a] != children@[b] by {
            assert(pend(peers, 0, a) == children@[a]);
            assert(pend(peers, 0, b) == children@[b]);
        }
    }
    proof {
        let lo = state.line_of@;
        let nodes = state.tree.nodes@;
        assert(state.parent_stack@.len() == 0);
        assert forall|k: int| 0 <= k < ls.len() && !blank(ls[k]) implies exists|i: int|
            0 <= i < lo.len() && #[trigger] lo[i] == k by {
            assert(accounted(lo, state.parent_stack@, k));
        }
        assert forall|k: int| 0 <= k < ls.len() && !blank(ls[k]) implies #[trigger] type_ok(ls[k]) && line_id(ls[k])
            != "00000"@ by {
            let i = choose|i: int| 0 <= i < lo.len() && #[trigger] lo[i] == k;
            assert(type_ok(ls[lo[i]]));
            assert(nodes[i].id@ != "00000"@);
        }
        assert forall|k1: int, k2: int|
            0 <= k1 < ls.len() && 0 <= k2 < ls.len() && k1 != k2 && !blank(ls[k1]) && !blank(ls[k2]) implies #[trigger] line_id(
                ls[k1],
            ) != #[trigger] line_id(ls[k2]) by {
            let i1 = choose|i: int| 0 <= i < lo.len() && #[trigger] lo[i] == k1;
            let i2 = choose|i: int| 0 <= i < lo.len() && #[trigger] lo[i] == k2;
            assert(i1 != i2);
            if i1 < i2 {
                assert(nodes[i1].id@ != nodes[i2].id@);
            } else {
                assert(nodes[i2].id@ != nodes[i1].id@);
            }
        }
        assert(lines_valid(ls));
        assert forall|k: int| #![trigger line_message(k, "Invalid node type"@)] !only_bad_type(ls, k) by {
            if 0 <= k < ls.len() && !blank(ls[k]) {
                assert(type_ok(ls[k]));
            }
        }
        assert forall|k: int| #![trigger line_message(k, "Id duplicated in tree"@)] !only_root_id(ls, k) by {
            if 0 <= k < ls.len() && !blank(ls[k]) {
                assert(type_ok(ls[k]));
            }
        }
    }
    let ghost lo_final = state.line_of@;
    let mut tree = state.tree;
    let ghost old_tree = tree;
    let root = Node::new_root(&mut tree, children);
    proof {
        let peers = before.peers_stack@;
        let moved = children@.map_values(|c: NodeRef| c.0 as int);
        let n = tree.nodes@.len() as int;
        assert forall|x: int| 0 <= x < n && x != root.0 implies tree.owned@.contains(x) by {
            if !old_tree.owned@.contains(x) {
                assert(before.tree.owned@.contains(x) == old_tree.owned@.contains(x));
                assert(pending(peers, x));
                let (i, j) = choose|i: int, j: int|
                    0 <= i < peers.len() && 0 <= j < peers[i]@.len() && #[trigger] pend(peers, i, j).0 == x;
                assert(i == 0);
                assert(pend(peers, 0, j) == children@[j]);
                assert(moved[j] == x);
                assert(moved.to_set().contains(x));
            }
        }
        assert(!tree.owned@.contains(root.0 as int));
        crate::tree::lemma_weight_single(tree.nodes@, tree.owned@, n, root.0 as int);
        let lo = lo_final;
        assert(lo.len() == root.0);
        assert forall|i: int|
            0 <= i < lo.len() implies 0 <= #[trigger] lo[i] < ls.len() && !blank(ls[lo[i]]) && node_is_line(
                tree.nodes@[i],
                ls[lo[i]],
            ) by {
            assert(tree.nodes@[i] == old_tree.nodes@[i]);
        }
        assert forall|k: int| 0 <= k < ls.len() && !blank(ls[k]) implies exists|i: int|
            0 <= i < lo.len() && #[trigger] lo[i] == k by {
            assert(accounted(lo, before.parent_stack@, k));
        }
        reveal(ParserState::shape);
        let peers = before.peers_stack@;
        let nodes = tree.nodes@;
        let rn = root.0 as int;
        assert forall|i: int| 0 <= i < lo.len() implies #[trigger] has_parent(nodes, i) by {
            assert(tree.owned@.contains(i));
        }
        reveal(ParserState::ordered);
        let nodes0 = old_tree.nodes@;
        assert(nodes.subrange(0, nodes0.len() as int) =~= nodes0);
        assert(lo.subrange(0, lo.len() as int) =~= lo);
        assert(lo.len() == nodes0.len());
        assert forall|i: int, c: int| 0 <= i < nodes0.len() && 0 <= c < nodes0[i].children.len() implies #[trigger] child(
            nodes0,
            i,
            c,
        ) < i by {
            assert(nodes[i] == nodes0[i]);
            assert(child(nodes, i, c) == child(nodes0, i, c));
        }
        assert forall|j: int| 0 <= j < nodes[rn].children.len() implies 0 <= #[trigger] child(nodes, rn, j) < rn by {
            assert(child(nodes, rn, j) == pend(peers, 0, j).0);
            assert(before.tree.free(pend(peers, 0, j)));
        }
        assert forall|j: int|
            0 <= j < nodes[rn].children.len() implies rising(lo, subtree(nodes, #[trigger] child(nodes, rn, j)))
                && lines_within(lo, subtree(nodes, child(nodes, rn, j)), 0, ls.len() as int) by {
            let c = child(nodes, rn, j);
            lemma_subtree_kept(nodes0, nodes, lo, lo, c);
            assert(lines_within(lo, subtree(nodes0, c), lo[c], ls.len() as int));
            assert(0 <= lo[c]);
            let sub = subtree(nodes0, c);
            assert forall|a: int| 0 <= a < sub.len() implies 0 <= lo[(#[trigger] sub[a]).0 as int] < ls.len() by {
                assert(lo[c] <= lo[sub[a].0 as int]);
            }
        }
        assert forall|j1: int, j2: int|
            0 <= j1 < j2 < nodes[rn].children.len() implies lines_within(
                lo,
                subtree(nodes, #[trigger] child(nodes, rn, j1)),
                0,
                lo[#[trigger] child(nodes, rn, j2)],
            ) by {
            let c1 = child(nodes, rn, j1);
            assert(c1 == pend(peers, 0, j1).0);
            assert(child(nodes, rn, j2) == pend(peers, 0, j2).0);
            lemma_subtree_kept(nodes0, nodes, lo, lo, c1);
        }
        lemma_below_rising(nodes, lo, rn, nodes[rn].children.len() as int, 0, ls.len() as int);
        assert(nodes[rn].children == children);
        assert forall|i: int, c: int|
            0 <= i < lo.len() && 0 <= c < nodes[i].children.len() implies parent_line(
                ls,
                lo[#[trigger] child(nodes, i, c)],
            ) == Some(lo[i]) by {
            assert(nodes[i] == old_tree.nodes@[i]);
            assert(child(nodes, i, c) == child(old_tree.nodes@, i, c));
        }
        assert forall|c: int| 0 <= c < nodes[rn].children.len() implies parent_line(
            ls,
            lo[#[trigger] child(nodes, rn, c)],
        ) is None by {
            assert(child(nodes, rn, c) == pend(peers, 0, c).0);
        }
        assert forall|i: int, a: int, b: int|
            0 <= i < nodes.len() && 0 <= a < b < nodes[i].children.len() implies lo[#[trigger] child(nodes, i, a)] < lo[#[trigger] child(
                nodes,
                i,
                b,
            )] by {
            if i < rn {
                assert(nodes[i] == old_tree.nodes@[i]);
                assert(child(nodes, i, a) == child(old_tree.nodes@, i, a));
                assert(child(nodes, i, b) == child(old_tree.nodes@, i, b));
            } else {
                assert(child(nodes, rn, a) == pend(peers, 0, a).0);
                assert(child(nodes, rn, b) == pend(peers, 0, b).0);
            }
        }
    }
    Ok((tree, root))
}

} // verus!
