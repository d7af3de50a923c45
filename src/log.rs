use vstd::prelude::*;

use crate::cache::{parse_time, time_of_text};
use crate::fitness::TreeState;
use crate::genome::{Optimization, MAX_SECONDS};
use crate::parse_tree::{line_error, parse_line, parse_line_spec, split_lines, text_lines};
use crate::text::same_text;
use crate::tree::{NodeRef, NodeType, Tree};

verus! {

/// What a log entry records.
#[derive(Debug, Clone, Copy, PartialEq, Eq, Structural)]
pub enum LogKind {
    Activation,
    Unknown,
}

/// A node named by a log entry, unless the tree no longer has it.
#[derive(Debug, Clone, Copy, PartialEq, Eq, Structural)]
pub enum LogNode {
    Exists(NodeRef),
    Gone,
}

/// One line of the activity log: when, what, and the path of nodes.
#[derive(Debug, Clone)]
pub struct LogEntry {
    pub time: i64,
    pub kind: LogKind,
    pub nodes: Vec<LogNode>,
}

/// The list of strings that a JSON text holds, if it holds one.
pub uninterp spec fn json_strings(s: Seq<char>) -> Option<Seq<Seq<char>>>;

/// Relies on rustc_serialize's `json::decode` into a `Vec<String>`.
#[verifier::external_body]
fn decode_strings(s: &str) -> (r: Option<Vec<String>>)
    ensures
        match r {
            Some(v) => json_strings(s@) == Some(v@.map_values(|x: String| x@)),
            None => json_strings(s@) is None,
        },
{
    match rustc_serialize::json::decode::<Vec<String>>(s) {
        Ok(v) => Some(v),
        Err(_) => None,
    }
}

/// The first position at which `pat` occurs in `s`, at or after `from`.
pub open spec fn find_from(s: Seq<char>, pat: Seq<char>, from: int) -> Option<int>
    decreases s.len() + 1 - from,
{
    if from < 0 || from > s.len() || from + pat.len() > s.len() {
        None
    } else if s.subrange(from, from + pat.len()) == pat {
        Some(from)
    } else {
        find_from(s, pat, from + 1)
    }
}

/// The first position of `pat` in `s` at or after `from`.
fn find(s: &str, pat: &str, from: usize) -> (r: Option<usize>)
    requires
        from <= s@.len(),
    ensures
        match find_from(s@, pat@, from as int) {
            Some(i) => r == Some(i as usize),
            None => r is None,
        },
{
    let n = s.unicode_len();
    let m = pat.unicode_len();
    if m > n {
        return None;
    }
    if from > n - m {
        return None;
    }
    let mut i = from;
    loop
        invariant
            n == s@.len(),
            m == pat@.len(),
            m <= n,
            from <= i <= n - m,
            find_from(s@, pat@, from as int) == find_from(s@, pat@, i as int),
        decreases n - m - i,
    {
        let piece = s.substring_char(i, i + m);
        if same_text(piece, pat) {
            return Some(i);
        }
        proof {
            assert(piece@ != pat@);
            assert(find_from(s@, pat@, i as int) == find_from(s@, pat@, i + 1));
        }
        if i == n - m {
            assert(find_from(s@, pat@, i + 1) is None);
            return None;
        }
        i = i + 1;
    }
}

/// The position of the last `c` in `s`.
pub open spec fn last_index_of(s: Seq<char>, c: char) -> Option<int>
    decreases s.len(),
{
    if s.len() == 0 {
        None
    } else if s.last() == c {
        Some(s.len() - 1)
    } else {
        last_index_of(s.drop_last(), c)
    }
}

fn rfind_char(s: &str, c: char) -> (r: Option<usize>)
    ensures
        match last_index_of(s@, c) {
            Some(i) => r == Some(i as usize),
            None => r is None,
        },
{
    let n = s.unicode_len();
    let mut k = n;
    proof {
        assert(s@.subrange(0, n as int) =~= s@);
    }
    while k > 0
        invariant
            n == s@.len(),
            k <= n,
            last_index_of(s@, c) == last_index_of(s@.subrange(0, k as int), c),
        decreases k,
    {
        if s.get_char(k - 1) == c {
            proof {
                assert(s@.subrange(0, k as int).last() == s@[k - 1]);
            }
            return Some(k - 1);
        }
        proof {
            assert(s@.subrange(0, k as int).drop_last() =~= s@.subrange(0, k - 1));
        }
        k = k - 1;
    }
    None
}

/// Why a log line was refused.
#[derive(Debug, Clone, Copy, PartialEq, Eq, Structural)]
pub enum LogError {
    Segments,
    Date,
    NodeList,
    NodeLine,
    Indented,
    Metadata,
    MissingId,
}

/// The description of each error.
pub open spec fn log_error_text(e: LogError) -> Seq<char> {
    match e {
        LogError::Segments => "Wrong number of segments"@,
        LogError::Date => "Date parse"@,
        LogError::NodeList => "Nodes are not a list of strings"@,
        LogError::NodeLine => "Parsing node"@,
        LogError::Indented => "A node had nonzero indent in the json"@,
        LogError::Metadata => "Contained metadata in nodes"@,
        LogError::MissingId => "A node is missing an id"@,
    }
}

impl LogError {
    /// A human-readable description.
    pub fn message(&self) -> (r: &'static str)
        ensures
            r@ == log_error_text(*self),
    {
        match self {
            LogError::Segments => "Wrong number of segments",
            LogError::Date => "Date parse",
            LogError::NodeList => "Nodes are not a list of strings",
            LogError::NodeLine => "Parsing node",
            LogError::Indented => "A node had nonzero indent in the json",
            LogError::Metadata => "Contained metadata in nodes",
            LogError::MissingId => "A node is missing an id",
        }
    }
}

/// The node that one string of a log entry's path names.
pub open spec fn log_node_spec(tree: Tree, s: Seq<char>) -> Result<LogNode, LogError> {
    match parse_line_spec(s) {
        Err(_) => Err(LogError::NodeLine),
        Ok(p) => if p.indent != 0 {
            Err(LogError::Indented)
        } else if p.is_metadata {
            Err(LogError::Metadata)
        } else {
            match p.id {
                None => Err(LogError::MissingId),
                Some(id) => match crate::cache::first_with_id(tree, id) {
                    Some(n) => Ok(LogNode::Exists(n)),
                    None => Ok(LogNode::Gone),
                },
            }
        },
    }
}

/// Reads one node of a log entry's path.
fn log_node(tree: &Tree, s: &str) -> (r: Result<LogNode, LogError>)
    ensures
        r == log_node_spec(*tree, s@),
        r matches Ok(LogNode::Exists(n)) ==> tree.valid(n),
{
    let parsed = match parse_line(s) {
        Ok(p) => p,
        Err(_) => {
            return Err(LogError::NodeLine);
        },
    };
    if parsed.indent != 0 {
        return Err(LogError::Indented);
    }
    if parsed.is_metadata {
        return Err(LogError::Metadata);
    }
    let id = match parsed.id {
        Some(x) => x,
        None => {
            return Err(LogError::MissingId);
        },
    };
    match tree.find_id(id.as_str()) {
        Some(n) => {
            proof {
                crate::cache::lemma_first_with_id(*tree, id@, n);
            }
            Ok(LogNode::Exists(n))
        },
        None => {
            assert(crate::cache::first_with_id(*tree, id@) is None);
            Ok(LogNode::Gone)
        },
    }
}

/// The nodes that the path strings name, from the first `k`.
pub open spec fn log_nodes_spec(tree: Tree, path: Seq<Seq<char>>, k: int) -> Result<Seq<LogNode>, LogError>
    decreases k,
{
    if k <= 0 {
        Ok(seq![])
    } else {
        match log_nodes_spec(tree, path, k - 1) {
            Err(e) => Err(e),
            Ok(ns) => match log_node_spec(tree, path[k - 1]) {
                Err(e) => Err(e),
                Ok(n) => Ok(ns.push(n)),
            },
        }
    }
}

/// What a log line means: `<date> <time> <weekday> - <kind> - <JSON list of
/// node lines>`.
pub open spec fn log_entry_spec(tree: Tree, line: Seq<char>) -> Result<(int, LogKind, Seq<LogNode>), LogError> {
    let sep = " - "@;
    match find_from(line, sep, 0) {
        None => Err(LogError::Segments),
        Some(i) => match find_from(line, sep, i + 3) {
            None => Err(LogError::Segments),
            Some(j) => {
                let stamp = line.subrange(0, i);
                let kind_text = line.subrange(i + 3, j);
                let nodes_text = line.subrange(j + 3, line.len() as int);
                match last_index_of(stamp, ' ') {
                    None => Err(LogError::Date),
                    Some(w) => match time_of_text(stamp.subrange(0, w), "%Y-%m-%d %H:%M:%S"@) {
                        None => Err(LogError::Date),
                        Some(t) => {
                            let kind = if kind_text == "activation"@ {
                                LogKind::Activation
                            } else {
                                LogKind::Unknown
                            };
                            match json_strings(nodes_text) {
                                None => Err(LogError::NodeList),
                                Some(path) => match log_nodes_spec(tree, path, path.len() as int) {
                                    Err(e) => Err(e),
                                    Ok(ns) => Ok((t, kind, ns)),
                                },
                            }
                        },
                    },
                }
            },
        },
    }
}

proof fn lemma_log_nodes_err(tree: Tree, path: Seq<Seq<char>>, k: int, m: int)
    requires
        0 <= k <= m,
        log_nodes_spec(tree, path, k) is Err,
    ensures
        log_nodes_spec(tree, path, m) == log_nodes_spec(tree, path, k),
    decreases m - k,
{
    if m > k {
        lemma_log_nodes_err(tree, path, k, m - 1);
    }
}

proof fn lemma_find_bound(s: Seq<char>, pat: Seq<char>, from: int)
    ensures
        find_from(s, pat, from) matches Some(i) ==> from <= i && i + pat.len() <= s.len() && s.subrange(
            i,
            i + pat.len(),
        ) == pat,
    decreases s.len() + 1 - from,
{
    if !(from < 0 || from > s.len() || from + pat.len() > s.len()) && s.subrange(from, from + pat.len()) != pat {
        lemma_find_bound(s, pat, from + 1);
    }
}

impl LogEntry {
    /// Reads one line of the activity log.
    #[verifier::spinoff_prover]
    pub fn from_line(tree: &Tree, line: &str) -> (r: Result<LogEntry, LogError>)
        ensures
            match log_entry_spec(*tree, line@) {
                Ok((t, kind, ns)) => r matches Ok(e) && e.time == t && e.kind == kind && e.nodes@ == ns,
                Err(err) => r == Err::<LogEntry, LogError>(err),
            },
            r matches Ok(e) ==> forall|k: int|
                0 <= k < e.nodes@.len() ==> (#[trigger] e.nodes@[k] matches LogNode::Exists(n) ==> tree.valid(n)),
    {
        proof {
            reveal_strlit(" - ");
        }
        let n = line.unicode_len();
        let i = match find(line, " - ", 0) {
            Some(i) => i,
            None => {
                return Err(LogError::Segments);
            },
        };
        proof {
            lemma_find_bound(line@, " - "@, 0);
        }
        let j = match find(line, " - ", i + 3) {
            Some(j) => j,
            None => {
                return Err(LogError::Segments);
            },
        };
        proof {
            lemma_find_bound(line@, " - "@, i + 3);
        }
        let stamp = line.substring_char(0, i);
        let kind_text = line.substring_char(i + 3, j);
        let nodes_text = line.substring_char(j + 3, n);
        let w = match rfind_char(stamp, ' ') {
            Some(w) => w,
            None => {
                return Err(LogError::Date);
            },
        };
        proof {
            lemma_last_index_bound(stamp@, ' ');
        }
        let date = stamp.substring_char(0, w);
        let time = match parse_time(date, "%Y-%m-%d %H:%M:%S") {
            Some(t) => t,
            None => {
                return Err(LogError::Date);
            },
        };
        let kind = if same_text(kind_text, "activation") {
            LogKind::Activation
        } else {
            LogKind::Unknown
        };
        let path = match decode_strings(nodes_text) {
            Some(v) => v,
            None => {
                return Err(LogError::NodeList);
            },
        };
        let ghost p = path@.map_values(|x: String| x@);
        let ghost whole = log_entry_spec(*tree, line@);
        proof {
            assert(whole == match log_nodes_spec(*tree, p, p.len() as int) {
                Err(e) => Err(e),
                Ok(ns) => Ok((time as int, kind, ns)),
            });
        }
        let mut nodes: Vec<LogNode> = Vec::new();
        let mut k: usize = 0;
        while k < path.len()
            invariant
                whole == log_entry_spec(*tree, line@),
                whole == match log_nodes_spec(*tree, p, p.len() as int) {
                    Err(e) => Err(e),
                    Ok(ns) => Ok((time as int, kind, ns)),
                },
                p.len() == path@.len(),
                p == path@.map_values(|x: String| x@),
                k <= path@.len(),
                log_nodes_spec(*tree, p, k as int) == Ok::<Seq<LogNode>, LogError>(nodes@),
                forall|x: int| 0 <= x < nodes@.len() ==> (#[trigger] nodes@[x] matches LogNode::Exists(n) ==> tree.valid(n)),
            decreases path@.len() - k,
        {
            assert(p[k as int] == path@[k as int]@);
            match log_node(tree, path[k].as_str()) {
                Ok(node) => {
                    nodes.push(node);
                },
                Err(e) => {
                    proof {
                        assert(log_nodes_spec(*tree, p, k + 1) == Err::<Seq<LogNode>, LogError>(e));
                        lemma_log_nodes_err(*tree, p, k + 1, p.len() as int);
                    }
                    return Err(e);
                },
            }
            k = k + 1;
        }
        Ok(LogEntry { time, kind, nodes })
    }
}

proof fn lemma_last_index_bound(s: Seq<char>, c: char)
    ensures
        last_index_of(s, c) matches Some(i) ==> 0 <= i < s.len(),
    decreases s.len(),
{
    if s.len() > 0 && s.last() != c {
        lemma_last_index_bound(s.drop_last(), c);
    }
}

/// Reads the activity log, one entry per line; a line that cannot be read
/// is an error naming its line number.
pub fn parse_log(tree: &Tree, log: &str) -> (r: Result<Vec<LogEntry>, String>)
    ensures
        r is Ok <==> forall|i: int|
            0 <= i < text_lines(log@).len() ==> #[trigger] log_entry_spec(*tree, text_lines(log@)[i]) is Ok,
        forall|k: int|
            0 <= k < text_lines(log@).len() && (forall|j: int| 0 <= j < k ==> #[trigger] log_entry_spec(*tree, text_lines(log@)[j]) is Ok)
                && #[trigger] log_entry_spec(*tree, text_lines(log@)[k]) is Err ==> (r matches Err(m) && m@ == "Line "@
                + crate::parse_tree::decimal((k + 1) as nat) + ": "@ + log_error_text(
                log_entry_spec(*tree, text_lines(log@)[k])->Err_0,
            )),
        r matches Ok(entries) ==> {
            &&& entries@.len() == text_lines(log@).len()
            &&& entries_valid(*tree, entries@)
            &&& forall|i: int|
                0 <= i < entries@.len() ==> (#[trigger] log_entry_spec(*tree, text_lines(log@)[i]) matches Ok(
                    (t, kind, ns),
                ) && entries@[i].time == t && entries@[i].kind == kind && entries@[i].nodes@ == ns)
        },
{
    let lines = split_lines(log);
    let ghost ls = text_lines(log@);
    proof {
        assert(lines@.map_values(|l: String| l@).len() == lines@.len());
    }
    let mut result: Vec<LogEntry> = Vec::new();
    let mut i: usize = 0;
    while i < lines.len()
        invariant
            ls == text_lines(log@),
            lines@.map_values(|l: String| l@) == ls,
            ls.len() == lines@.len(),
            i <= lines@.len(),
            result@.len() == i,
            entries_valid(*tree, result@),
            forall|k: int|
                0 <= k < i ==> (#[trigger] log_entry_spec(*tree, ls[k]) matches Ok((t, kind, ns)) && result@[k].time == t
                    && result@[k].kind == kind && result@[k].nodes@ == ns),
        decreases lines@.len() - i,
    {
        assert(ls[i as int] == lines@[i as int]@);
        match LogEntry::from_line(tree, lines[i].as_str()) {
            Ok(e) => {
                let ghost before = result@;
                result.push(e);
                proof {
                    assert forall|a: int, k: int|
                        0 <= a < result@.len() && 0 <= k < result@[a].nodes@.len() implies (#[trigger] result@[a].nodes@[k] matches LogNode::Exists(
                            n,
                        ) ==> tree.valid(n)) by {
                        if a < before.len() {
                            assert(result@[a] == before[a]);
                        }
                    }
                    assert forall|k: int| 0 <= k < i + 1 implies (#[trigger] log_entry_spec(*tree, ls[k]) matches Ok(
                        (t, kind, ns),
                    ) && result@[k].time == t && result@[k].kind == kind && result@[k].nodes@ == ns) by {
                        if k < i {
                            assert(result@[k] == before[k]);
                        }
                    }
                }
            },
            Err(e) => {
                proof {
                    assert(log_entry_spec(*tree, ls[i as int]) == Err::<(int, LogKind, Seq<LogNode>), LogError>(e));
                    assert forall|k: int|
                        0 <= k < ls.len() && (forall|j: int| 0 <= j < k ==> #[trigger] log_entry_spec(*tree, ls[j]) is Ok)
                            && #[trigger] log_entry_spec(*tree, ls[k]) is Err implies k == i by {
                        if k > i {
                            assert(log_entry_spec(*tree, ls[i as int]) is Ok);
                        }
                    }
                }
                return Err(line_error(i + 1, e.message()));
            },
        }
        i = i + 1;
    }
    Ok(result)
}

/// The last project on a path of nodes, among those the tree still has.
pub open spec fn last_project_of(tree: Tree, path: Seq<LogNode>) -> Option<NodeRef>
    decreases path.len(),
{
    if path.len() == 0 {
        None
    } else {
        match path.last() {
            LogNode::Exists(n) => if tree.valid(n) && tree.nodes@[n.0 as int].nodetype == NodeType::Project {
                Some(n)
            } else {
                last_project_of(tree, path.drop_last())
            },
            LogNode::Gone => last_project_of(tree, path.drop_last()),
        }
    }
}

/// The last project on an entry's path that the tree still has.
pub fn last_project(tree: &Tree, e: &LogEntry) -> (r: Option<NodeRef>)
    requires
        forall|k: int| 0 <= k < e.nodes@.len() ==> (#[trigger] e.nodes@[k] matches LogNode::Exists(n) ==> tree.valid(n)),
    ensures
        r == last_project_of(*tree, e.nodes@),
        r matches Some(n) ==> tree.valid(n),
{
    let mut k = e.nodes.len();
    proof {
        assert(e.nodes@.subrange(0, k as int) =~= e.nodes@);
    }
    while k > 0
        invariant
            k <= e.nodes@.len(),
            forall|j: int| 0 <= j < e.nodes@.len() ==> (#[trigger] e.nodes@[j] matches LogNode::Exists(n) ==> tree.valid(n)),
            last_project_of(*tree, e.nodes@) == last_project_of(*tree, e.nodes@.subrange(0, k as int)),
        decreases k,
    {
        let ghost sub = e.nodes@.subrange(0, k as int);
        proof {
            assert(sub.last() == e.nodes@[k - 1]);
            assert(sub.drop_last() =~= e.nodes@.subrange(0, k - 1));
        }
        match e.nodes[k - 1] {
            LogNode::Exists(n) => {
                if tree.nodes[n.0].nodetype == NodeType::Project {
                    return Some(n);
                }
            },
            LogNode::Gone => {},
        }
        k = k - 1;
    }
    proof {
        assert(e.nodes@.subrange(0, 0) =~= Seq::<LogNode>::empty());
    }
    None
}

/// Every node an entry names is in the tree.
pub open spec fn entries_valid(tree: Tree, log: Seq<LogEntry>) -> bool {
    forall|i: int, k: int|
        0 <= i < log.len() && 0 <= k < log[i].nodes@.len() ==> (#[trigger] log[i].nodes@[k] matches LogNode::Exists(
            n,
        ) ==> tree.valid(n))
}

/// `v + d`, but no more than `MAX_SECONDS`.
pub open spec fn credit(v: int, d: int) -> int {
    if v + d > MAX_SECONDS {
        MAX_SECONDS as int
    } else {
        v + d
    }
}

/// The time from one activation to the next, zero if the log steps back,
/// and no more than `MAX_SECONDS`.
pub open spec fn gap(first: LogEntry, second: LogEntry) -> int {
    if second.time > first.time {
        if second.time - first.time > MAX_SECONDS {
            MAX_SECONDS as int
        } else {
            second.time - first.time
        }
    } else {
        0
    }
}

/// The focus per node, the total, and the last activation, after the first
/// `k` entries.
pub open spec fn history(tree: Tree, log: Seq<LogEntry>, k: int) -> (Seq<int>, int, Option<int>)
    decreases k,
{
    if k <= 0 {
        (Seq::new(tree.nodes@.len(), |i: int| 0int), 0, None)
    } else {
        let (st, tot, prev) = history(tree, log, k - 1);
        let e = log[k - 1];
        if e.kind != LogKind::Activation {
            (st, tot, prev)
        } else {
            match prev {
                None => (st, tot, Some(k - 1)),
                Some(p) => match last_project_of(tree, log[p].nodes@) {
                    None => (st, tot, Some(k - 1)),
                    Some(n) => {
                        let d = gap(log[p], e);
                        (st.update(n.0 as int, credit(st[n.0 as int], d)), credit(tot, d), Some(k - 1))
                    },
                },
            }
        }
    }
}

/// The focus history that the log records: for each activation, the time
/// until the next activation goes to the last project on its path, and to
/// the total. Times run forward; a step back counts nothing, and each sum
/// stops at `MAX_SECONDS`.
#[verifier::spinoff_prover]
pub fn prepare_state(log: &Vec<LogEntry>, opt: &Optimization) -> (r: TreeState)
    requires
        opt.wf(),
        entries_valid(opt.tree, log@),
    ensures
        r.wf(opt),
        r.nodestates@.map_values(|v: u64| v as int) == history(opt.tree, log@, log@.len() as int).0,
        r.total_time_working as int == history(opt.tree, log@, log@.len() as int).1,
{
    let mut state = TreeState::new(opt);
    let mut prev: Option<usize> = None;
    let mut i: usize = 0;
    proof {
        assert(state.nodestates@.map_values(|v: u64| v as int) =~= history(opt.tree, log@, 0).0);
    }
    while i < log.len()
        invariant
            opt.wf(),
            entries_valid(opt.tree, log@),
            state.wf(opt),
            i <= log@.len(),
            prev matches Some(p) ==> p < i,
            state.nodestates@.map_values(|v: u64| v as int) == history(opt.tree, log@, i as int).0,
            state.total_time_working as int == history(opt.tree, log@, i as int).1,
            history(opt.tree, log@, i as int).2 == match prev {
                Some(p) => Some(p as int),
                None => None::<int>,
            },
        decreases log@.len() - i,
    {
        let ghost before = state.nodestates@;
        if log[i].kind == LogKind::Activation {
            match prev {
                Some(p) => {
                    let first = &log[p];
                    let second = &log[i];
                    assert forall|k: int| 0 <= k < first.nodes@.len() implies (#[trigger] first.nodes@[k] matches LogNode::Exists(
                        n,
                    ) ==> opt.tree.valid(n)) by {
                        assert(log@[p as int].nodes@[k] == first.nodes@[k]);
                    }
                    match last_project(&opt.tree, first) {
                        Some(node) => {
                            let delta: u64 = if second.time > first.time {
                                let d = (second.time as i128 - first.time as i128) as u128;
                                if d > MAX_SECONDS as u128 {
                                    MAX_SECONDS
                                } else {
                                    d as u64
                                }
                            } else {
                                0
                            };
                            assert(delta as int == gap(*first, *second));
                            let total = state.total_time_working + delta;
                            state.total_time_working = if total > MAX_SECONDS {
                                MAX_SECONDS
                            } else {
                                total
                            };
                            let cur = state.nodestates[node.0] + delta;
                            let capped = if cur > MAX_SECONDS {
                                MAX_SECONDS
                            } else {
                                cur
                            };
                            state.nodestates.set(node.0, capped);
                            assert forall|x: int| 0 <= x < state.nodestates@.len() implies #[trigger] state.nodestates@[x]
                                <= MAX_SECONDS by {
                            }
                            proof {
                                let h = history(opt.tree, log@, i as int).0;
                                assert(h[node.0 as int] == before[node.0 as int]);
                                assert(state.nodestates@.map_values(|v: u64| v as int) =~= h.update(
                                    node.0 as int,
                                    credit(h[node.0 as int], gap(log@[p as int], log@[i as int])),
                                ));
                            }
                        },
                        None => {},
                    }
                },
                None => {},
            }
            prev = Some(i);
        }
        i = i + 1;
    }
    state
}

/// `entries` are what the lines of `log` mean.
pub open spec fn read_as(tree: Tree, log: Seq<char>, entries: Seq<LogEntry>) -> bool {
    &&& entries.len() == text_lines(log).len()
    &&& forall|i: int|
        0 <= i < entries.len() ==> (#[trigger] log_entry_spec(tree, text_lines(log)[i]) matches Ok((t, kind, ns))
            && entries[i].time == t && entries[i].kind == kind && entries[i].nodes@ == ns)
}

/// Reads the activity log and turns it into the focus history; fails
/// exactly when a line cannot be read.
pub fn process_log(opt: &Optimization, log: &str) -> (r: Result<TreeState, String>)
    requires
        opt.wf(),
    ensures
        r is Ok <==> forall|i: int|
            0 <= i < text_lines(log@).len() ==> #[trigger] log_entry_spec(opt.tree, text_lines(log@)[i]) is Ok,
        r matches Ok(s) ==> s.wf(opt) && exists|entries: Seq<LogEntry>|
            read_as(opt.tree, log@, entries) && s.nodestates@.map_values(|v: u64| v as int) == history(
                opt.tree,
                entries,
                entries.len() as int,
            ).0 && s.total_time_working as int == history(opt.tree, entries, entries.len() as int).1,
{
    let entries = match parse_log(&opt.tree, log) {
        Ok(e) => e,
        Err(e) => {
            return Err(e);
        },
    };
    let state = prepare_state(&entries, opt);
    assert(read_as(opt.tree, log@, entries@));
    Ok(state)
}

} // verus!
