use vstd::prelude::*;

use crate::genome::{Activity, ActivityType, Fitness, Genome, FITNESS_ONE};
use crate::parse_tree::{decimal, decimal_text, line_error, opt_view, push_char, split_lines, text_lines};
use crate::text::{index_of, pieces, same_text, split_char, split_once, starts_with, trim, trimmed};
use crate::tree::{NodeRef, Tree};

verus! {

/// The calendar time, in UTC, written `YYYY-MM-DDTHH:MM:SS`, of a moment
/// given in seconds since the epoch; none outside the calendar's range.
pub uninterp spec fn timestamp_text(t: int) -> Option<Seq<char>>;

/// The moment, in seconds since the epoch, that a UTC calendar time written
/// in the strftime format `fmt` names; none if the text is not such a time.
pub uninterp spec fn time_of_text(s: Seq<char>, fmt: Seq<char>) -> Option<int>;

/// Relies on chrono's `DateTime::from_timestamp` and its formatting with
/// `%Y-%m-%dT%H:%M:%S`.
#[verifier::external_body]
fn format_timestamp(t: i64) -> (r: Option<String>)
    ensures
        opt_view(r) == timestamp_text(t as int),
{
    match chrono::DateTime::from_timestamp(t, 0) {
        Some(d) => Some(d.format("%Y-%m-%dT%H:%M:%S").to_string()),
        None => None,
    }
}

/// Relies on chrono's `NaiveDateTime::parse_from_str`, the result read as UTC.
#[verifier::external_body]
pub(crate) fn parse_time(s: &str, fmt: &str) -> (r: Option<i64>)
    ensures
        match r {
            Some(t) => time_of_text(s@, fmt@) == Some(t as int),
            None => time_of_text(s@, fmt@) is None,
        },
{
    match chrono::NaiveDateTime::parse_from_str(s, fmt) {
        Ok(d) => Some(d.and_utc().timestamp()),
        Err(_) => None,
    }
}

pub open spec fn pow10(e: nat) -> int
    decreases e,
{
    if e == 0 {
        1
    } else {
        10 * pow10((e - 1) as nat)
    }
}

pub open spec fn digit(d: int) -> char {
    seq!['0', '1', '2', '3', '4', '5', '6', '7', '8', '9'][d]
}

/// The nine digits of `x` below the decimal point, `x` counting billionths.
pub open spec fn nine_digits(x: int) -> Seq<char> {
    Seq::new(9, |k: int| digit((x / pow10((8 - k) as nat)) % 10))
}

/// `s` without its trailing zeros.
pub open spec fn strip_zeros(s: Seq<char>) -> Seq<char>
    decreases s.len(),
{
    if s.len() > 0 && s.last() == '0' {
        strip_zeros(s.drop_last())
    } else {
        s
    }
}

/// A fitness written in decimal, without trailing zeros: `5.5`, `100`.
pub open spec fn fitness_text(f: int) -> Seq<char> {
    let whole = decimal((f / FITNESS_ONE as int) as nat);
    let frac = f % FITNESS_ONE as int;
    if frac == 0 {
        whole
    } else {
        whole + seq!['.'] + strip_zeros(nine_digits(frac))
    }
}

/// A fitness written in decimal.
pub fn format_fitness(f: Fitness) -> (r: String)
    ensures
        r@ == fitness_text(f as int),
{
    let mut out = decimal_text(f / FITNESS_ONE);
    let frac = f % FITNESS_ONE;
    if frac == 0 {
        return out;
    }
    let mut digits: Vec<char> = Vec::new();
    let mut div: u128 = 100_000_000;
    let mut k: usize = 0;
    proof {
        reveal_with_fuel(pow10, 9);
    }
    while k < 9
        invariant
            k <= 9,
            frac < FITNESS_ONE,
            k < 9 ==> div as int == pow10((8 - k) as nat),
            digits@ == nine_digits(frac as int).subrange(0, k as int),
        decreases 9 - k,
    {
        proof {
            reveal_with_fuel(pow10, 9);
        }
        let d = (frac / div) % 10;
        let c = if d == 0 {
            '0'
        } else if d == 1 {
            '1'
        } else if d == 2 {
            '2'
        } else if d == 3 {
            '3'
        } else if d == 4 {
            '4'
        } else if d == 5 {
            '5'
        } else if d == 6 {
            '6'
        } else if d == 7 {
            '7'
        } else if d == 8 {
            '8'
        } else {
            '9'
        };
        assert(c == digit(d as int));
        digits.push(c);
        assert(digits@ =~= nine_digits(frac as int).subrange(0, k + 1));
        assert(k < 8 ==> div / 10 == pow10((8 - (k + 1)) as nat));
        div = div / 10;
        k = k + 1;
    }
    assert(digits@ =~= nine_digits(frac as int));
    while digits.len() > 0 && digits[digits.len() - 1] == '0'
        invariant
            strip_zeros(digits@) == strip_zeros(nine_digits(frac as int)),
        decreases digits@.len(),
    {
        let ghost before = digits@;
        digits.pop();
        assert(digits@ == before.drop_last());
    }
    push_char(&mut out, '.');
    let mut i: usize = 0;
    let ghost base = out@;
    while i < digits.len()
        invariant
            i <= digits@.len(),
            out@ == base + digits@.subrange(0, i as int),
        decreases digits@.len() - i,
    {
        push_char(&mut out, digits[i]);
        assert(digits@.subrange(0, i + 1) =~= digits@.subrange(0, i as int).push(digits@[i as int]));
        i = i + 1;
    }
    assert(digits@.subrange(0, digits@.len() as int) =~= digits@);
    out
}

/// The value of a decimal digit.
pub open spec fn digit_value(c: char) -> int {
    c as u32 - 0x30
}

/// Text made of decimal digits only, at least one.
pub open spec fn all_digits(s: Seq<char>) -> bool {
    s.len() > 0 && forall|k: int| 0 <= k < s.len() ==> 0x30 <= (#[trigger] s[k]) as u32 <= 0x39
}

/// The number that decimal digits write.
pub open spec fn digits_value(s: Seq<char>) -> int
    decreases s.len(),
{
    if s.len() == 0 {
        0
    } else {
        digits_value(s.drop_last()) * 10 + digit_value(s.last())
    }
}

/// The fitness that `W` or `W.F` writes, `F` of at most nine digits; none
/// when the text is not such a number or the value does not fit.
pub open spec fn fitness_of_text(s: Seq<char>) -> Option<int> {
    let v = match index_of(s, '.') {
        None => if all_digits(s) {
            Some(digits_value(s) * FITNESS_ONE)
        } else {
            None
        },
        Some(i) => {
            let w = s.subrange(0, i);
            let f = s.subrange(i + 1, s.len() as int);
            if all_digits(w) && all_digits(f) && f.len() <= 9 {
                Some(digits_value(w) * FITNESS_ONE + digits_value(f) * pow10((9 - f.len()) as nat))
            } else {
                None
            }
        },
    };
    match v {
        Some(x) => if x <= u128::MAX {
            Some(x)
        } else {
            None
        },
        None => None,
    }
}

/// What follows `fitness ` in a record's header: `none`, or a fitness.
pub open spec fn header_value(s: Seq<char>) -> Option<Option<Fitness>> {
    if s == "none"@ {
        Some(None)
    } else {
        match fitness_of_text(s) {
            Some(x) => Some(Some(x as u128)),
            None => None,
        }
    }
}

proof fn lemma_digits_value_nonneg(s: Seq<char>)
    requires
        forall|k: int| 0 <= k < s.len() ==> 0x30 <= (#[trigger] s[k]) as u32 <= 0x39,
    ensures
        digits_value(s) >= 0,
    decreases s.len(),
{
    if s.len() > 0 {
        lemma_digits_value_nonneg(s.drop_last());
    }
}

/// The value of decimal digits, if they are digits and their value is at
/// most `limit`.
fn read_digits(s: &str, limit: u128) -> (r: Option<u128>)
    ensures
        match r {
            Some(v) => all_digits(s@) && v == digits_value(s@) && v <= limit,
            None => !all_digits(s@) || digits_value(s@) > limit,
        },
{
    let n = s.unicode_len();
    if n == 0 {
        return None;
    }
    let mut acc: u128 = 0;
    let mut i: usize = 0;
    while i < n
        invariant
            n == s@.len(),
            i <= n,
            forall|k: int| 0 <= k < i ==> 0x30 <= (#[trigger] s@[k]) as u32 <= 0x39,
            acc == digits_value(s@.subrange(0, i as int)),
            acc <= limit,
        decreases n - i,
    {
        let c = s.get_char(i);
        let u = c as u32;
        if u < 0x30 || u > 0x39 {
            return None;
        }
        let d = (u - 0x30) as u128;
        proof {
            assert(s@.subrange(0, i + 1).drop_last() =~= s@.subrange(0, i as int));
            assert(s@.subrange(0, i + 1).last() == c);
        }
        if d > limit || acc > (limit - d) / 10 {
            proof {
                lemma_digits_value_nonneg(s@.subrange(0, i as int));
                if d <= limit {
                    assert(acc * 10 + d > limit) by (nonlinear_arith)
                        requires
                            acc > (limit - d) / 10,
                            d <= limit,
                    ;
                }
                lemma_digits_prefix_grow(s@, i + 1, n as int);
            }
            return None;
        }
        assert(acc * 10 + d <= limit) by (nonlinear_arith)
            requires
                acc <= (limit - d) / 10,
                d <= limit,
        ;
        acc = acc * 10 + d;
        i = i + 1;
    }
    proof {
        assert(s@.subrange(0, n as int) =~= s@);
    }
    Some(acc)
}

/// `10^e` for `e <= 9`.
fn pow10_exec(e: usize) -> (r: u128)
    requires
        e <= 9,
    ensures
        r == pow10(e as nat),
        r <= 1_000_000_000,
{
    let mut r: u128 = 1;
    let mut k: usize = 0;
    while k < e
        invariant
            k <= e <= 9,
            r == pow10(k as nat),
            r <= pow10(k as nat),
            r * 10 <= 10_000_000_000 || k == e,
        decreases e - k,
    {
        proof {
            reveal_with_fuel(pow10, 10);
        }
        r = r * 10;
        k = k + 1;
    }
    proof {
        reveal_with_fuel(pow10, 10);
    }
    r
}

/// Reads what follows `fitness ` in a record's header.
pub fn read_header_value(s: &str) -> (r: Option<Option<Fitness>>)
    ensures
        r == header_value(s@),
{
    if same_text(s, "none") {
        return Some(None);
    }
    proof {
        reveal_strlit("none");
    }
    let limit: u128 = u128::MAX / FITNESS_ONE;
    match split_once(s, '.') {
        None => {
            match read_digits(s, limit) {
                Some(w) => {
                    assert(w * FITNESS_ONE <= u128::MAX) by (nonlinear_arith)
                        requires
                            w <= limit,
                            limit == u128::MAX as int / FITNESS_ONE as int,
                    ;
                    Some(Some(w * FITNESS_ONE))
                },
                None => {
                    proof {
                        if all_digits(s@) {
                            assert(digits_value(s@) * FITNESS_ONE > u128::MAX) by (nonlinear_arith)
                                requires
                                    digits_value(s@) > limit,
                                    limit == u128::MAX as int / FITNESS_ONE as int,
                            ;
                        }
                    }
                    None
                },
            }
        },
        Some((whole, frac)) => {
            let flen = frac.unicode_len();
            if flen > 9 {
                return None;
            }
            let f = match read_digits(frac.as_str(), 999_999_999) {
                Some(f) => f,
                None => {
                    proof {
                        if all_digits(frac@) {
                            lemma_digits_bound(frac@);
                            reveal_with_fuel(pow10, 10);
                            assert(pow10(frac@.len()) <= 1_000_000_000);
                        }
                    }
                    return None;
                },
            };
            let scale = pow10_exec(9 - flen);
            proof {
                lemma_digits_bound(frac@);
                lemma_pow10_add(flen as nat, (9 - flen) as nat);
                reveal_with_fuel(pow10, 10);
                assert(pow10(9) == 1_000_000_000);
            }
            assert(f * scale < 1_000_000_000) by (nonlinear_arith)
                requires
                    f < pow10(flen as nat),
                    scale == pow10((9 - flen) as nat),
                    pow10(flen as nat) * pow10((9 - flen) as nat) == 1_000_000_000,
            ;
            let part = f * scale;
            let wlimit = (u128::MAX - part) / FITNESS_ONE;
            match read_digits(whole.as_str(), wlimit) {
                Some(w) => {
                    assert(w * FITNESS_ONE + part <= u128::MAX) by (nonlinear_arith)
                        requires
                            w <= wlimit,
                            wlimit == (u128::MAX - part) as int / FITNESS_ONE as int,
                            part < 1_000_000_000,
                    ;
                    Some(Some(w * FITNESS_ONE + part))
                },
                None => {
                    proof {
                        if all_digits(whole@) {
                            assert(digits_value(whole@) * FITNESS_ONE + part > u128::MAX) by (nonlinear_arith)
                                requires
                                    digits_value(whole@) > wlimit,
                                    wlimit == (u128::MAX - part) as int / FITNESS_ONE as int,
                                    part < 1_000_000_000,
                            ;
                        }
                    }
                    None
                },
            }
        },
    }
}

proof fn lemma_pow10_add(a: nat, b: nat)
    ensures
        pow10(a) * pow10(b) == pow10(a + b),
        pow10(a) > 0,
    decreases a,
{
    if a > 0 {
        lemma_pow10_add((a - 1) as nat, b);
        assert(pow10(a) * pow10(b) == 10 * (pow10((a - 1) as nat) * pow10(b))) by (nonlinear_arith)
            requires
                pow10(a) == 10 * pow10((a - 1) as nat),
        ;
        assert((a - 1) as nat + b == (a + b - 1) as nat);
    }
}

/// Digits write a value below the power of ten of their count.
proof fn lemma_digits_bound(s: Seq<char>)
    requires
        forall|k: int| 0 <= k < s.len() ==> 0x30 <= (#[trigger] s[k]) as u32 <= 0x39,
    ensures
        0 <= digits_value(s) < pow10(s.len()),
    decreases s.len(),
{
    if s.len() > 0 {
        lemma_digits_bound(s.drop_last());
        let p = pow10((s.len() - 1) as nat);
        let v = digits_value(s.drop_last());
        assert(v * 10 + digit_value(s.last()) < 10 * p) by (nonlinear_arith)
            requires
                0 <= v < p,
                0 <= digit_value(s.last()) <= 9,
        ;
    }
}

/// Digits that go on only make the value grow.
proof fn lemma_digits_prefix_grow(s: Seq<char>, i: int, n: int)
    requires
        0 <= i <= n == s.len(),
        forall|k: int| 0 <= k < i ==> 0x30 <= (#[trigger] s[k]) as u32 <= 0x39,
    ensures
        all_digits(s) ==> digits_value(s) >= digits_value(s.subrange(0, i)),
    decreases n - i,
{
    if i < n && all_digits(s) {
        lemma_digits_prefix_grow(s, i + 1, n);
        assert(s.subrange(0, i + 1).drop_last() =~= s.subrange(0, i));
        lemma_digits_value_nonneg(s.subrange(0, i));
    } else if i == n {
        assert(s.subrange(0, n) =~= s);
    }
}

/// One activity as a line of the population cache, without its line feed:
/// `<time> nothing`, `<time> workon <id>` or `<time> finish <id>`.
pub open spec fn activity_text(tree: Tree, time: Seq<char>, a: Activity) -> Seq<char> {
    match a.activitytype {
        ActivityType::Nothing => time + " "@ + "nothing"@,
        ActivityType::WorkOn(n) => time + " "@ + "workon"@ + " "@ + tree.nodes@[n.0 as int].id@,
        ActivityType::Finish(n) => time + " "@ + "finish"@ + " "@ + tree.nodes@[n.0 as int].id@,
    }
}

/// Every node the activity names is in the tree.
pub open spec fn activity_refs_valid(tree: Tree, a: Activity) -> bool {
    match a.activitytype {
        ActivityType::Nothing => true,
        ActivityType::WorkOn(n) => tree.valid(n),
        ActivityType::Finish(n) => tree.valid(n),
    }
}

impl Activity {
    /// The activity as a line of the population cache; none when its time
    /// has no calendar date.
    pub fn to_string(&self, tree: &Tree) -> (r: Option<String>)
        requires
            activity_refs_valid(*tree, *self),
        ensures
            match timestamp_text(self.start as int) {
                Some(t) => r matches Some(s) && s@ == activity_text(*tree, t, *self),
                None => r is None,
            },
    {
        let mut result = match format_timestamp(self.start) {
            Some(t) => t,
            None => {
                return None;
            },
        };
        self.write_to_string(tree, &mut result);
        Some(result)
    }

    /// Appends the activity, after its time, to `result`.
    fn write_to_string(&self, tree: &Tree, result: &mut String)
        requires
            activity_refs_valid(*tree, *self),
        ensures
            final(result)@ == activity_text(*tree, old(result)@, *self),
    {
        result.append(" ");
        match self.activitytype {
            ActivityType::Nothing => {
                result.append("nothing");
            },
            ActivityType::WorkOn(node) => {
                result.append("workon");
                result.append(" ");
                result.append(tree.nodes[node.0].id.as_str());
            },
            ActivityType::Finish(node) => {
                result.append("finish");
                result.append(" ");
                result.append(tree.nodes[node.0].id.as_str());
            },
        }
    }
}

/// Why a line of the population cache was refused.
#[derive(Debug, Clone, Copy, PartialEq, Eq, Structural)]
pub enum CacheError {
    WrongSpaces,
    BadTime,
    NothingWithId,
    InvalidType,
    BadFitness,
}

/// The description of each error.
pub open spec fn cache_error_text(e: CacheError) -> Seq<char> {
    match e {
        CacheError::WrongSpaces => "Wrong number of spaces"@,
        CacheError::BadTime => "Invalid time"@,
        CacheError::NothingWithId => "`nothing` can't have node id"@,
        CacheError::InvalidType => "invalid activity type"@,
        CacheError::BadFitness => "Invalid fitness"@,
    }
}

impl CacheError {
    /// A human-readable description.
    pub fn message(&self) -> (r: &'static str)
        ensures
            r@ == cache_error_text(*self),
    {
        match self {
            CacheError::WrongSpaces => "Wrong number of spaces",
            CacheError::BadTime => "Invalid time",
            CacheError::NothingWithId => "`nothing` can't have node id",
            CacheError::InvalidType => "invalid activity type",
            CacheError::BadFitness => "Invalid fitness",
        }
    }
}

/// The first node, by handle, that carries `id`.
pub open spec fn first_with_id(tree: Tree, id: Seq<char>) -> Option<NodeRef> {
    if exists|i: int| 0 <= i < tree.nodes@.len() && #[trigger] tree.nodes@[i].id@ == id {
        Some(
            NodeRef(
                (choose|i: int|
                    0 <= i < tree.nodes@.len() && tree.nodes@[i].id@ == id && forall|j: int|
                        0 <= j < i ==> #[trigger] tree.nodes@[j].id@ != id) as usize,
            ),
        )
    } else {
        None
    }
}

/// What a line of the population cache means. A node id that the tree
/// lacks makes the line a `nothing`.
pub open spec fn activity_from_text(tree: Tree, line: Seq<char>) -> Result<Activity, CacheError> {
    let l = trimmed(line);
    match index_of(l, ' ') {
        None => Err(CacheError::WrongSpaces),
        Some(i) => {
            let date = l.subrange(0, i);
            let rest = l.subrange(i + 1, l.len() as int);
            match time_of_text(date, "%Y-%m-%dT%H:%M:%S"@) {
                None => Err(CacheError::BadTime),
                Some(t) => {
                    let ws = pieces(rest, ' ');
                    if ws.len() == 1 && ws[0] == "nothing"@ {
                        Ok(Activity { start: t as i64, activitytype: ActivityType::Nothing })
                    } else if ws.len() == 2 {
                        if ws[0] == "nothing"@ {
                            Err(CacheError::NothingWithId)
                        } else {
                            match first_with_id(tree, ws[1]) {
                                None => Ok(Activity { start: t as i64, activitytype: ActivityType::Nothing }),
                                Some(n) => if ws[0] == "workon"@ {
                                    Ok(Activity { start: t as i64, activitytype: ActivityType::WorkOn(n) })
                                } else if ws[0] == "finish"@ {
                                    Ok(Activity { start: t as i64, activitytype: ActivityType::Finish(n) })
                                } else {
                                    Err(CacheError::InvalidType)
                                },
                            }
                        }
                    } else {
                        Err(CacheError::WrongSpaces)
                    }
                },
            }
        },
    }
}

pub proof fn lemma_first_with_id(tree: Tree, id: Seq<char>, r: NodeRef)
    requires
        tree.valid(r),
        tree.nodes@[r.0 as int].id@ == id,
        forall|j: int| 0 <= j < r.0 ==> #[trigger] tree.nodes@[j].id@ != id,
    ensures
        first_with_id(tree, id) == Some(r),
{
    assert(tree.nodes@[r.0 as int].id@ == id);
    let c = choose|i: int|
        0 <= i < tree.nodes@.len() && tree.nodes@[i].id@ == id && forall|j: int|
            0 <= j < i ==> #[trigger] tree.nodes@[j].id@ != id;
    if c < r.0 {
        assert(tree.nodes@[c].id@ != id);
    } else if c > r.0 {
        assert(tree.nodes@[r.0 as int].id@ != id);
    }
}

impl Activity {
    /// Reads a line of the population cache.
    pub fn from_string(tree: &Tree, line: &str) -> (r: Result<Activity, CacheError>)
        ensures
            r == activity_from_text(*tree, line@),
    {
        let l = trim(line);
        let (date, rest) = match split_once(l.as_str(), ' ') {
            Some(x) => x,
            None => {
                return Err(CacheError::WrongSpaces);
            },
        };
        let t = match parse_time(date.as_str(), "%Y-%m-%dT%H:%M:%S") {
            Some(t) => t,
            None => {
                return Err(CacheError::BadTime);
            },
        };
        let ws = split_char(rest.as_str(), ' ');
        proof {
            assert(ws@.map_values(|p: String| p@).len() == ws@.len());
        }
        if ws.len() == 1 && same_text(ws[0].as_str(), "nothing") {
            proof {
                assert(ws@.map_values(|p: String| p@)[0] == ws@[0]@);
            }
            return Ok(Activity { start: t, activitytype: ActivityType::Nothing });
        }
        if ws.len() != 2 {
            proof {
                if ws@.len() == 1 {
                    assert(ws@.map_values(|p: String| p@)[0] == ws@[0]@);
                }
            }
            return Err(CacheError::WrongSpaces);
        }
        proof {
            assert(ws@.map_values(|p: String| p@)[0] == ws@[0]@);
            assert(ws@.map_values(|p: String| p@)[1] == ws@[1]@);
        }
        if same_text(ws[0].as_str(), "nothing") {
            return Err(CacheError::NothingWithId);
        }
        let node = match tree.find_id(ws[1].as_str()) {
            Some(n) => n,
            None => {
                return Ok(Activity { start: t, activitytype: ActivityType::Nothing });
            },
        };
        proof {
            lemma_first_with_id(*tree, ws@[1]@, node);
        }
        if same_text(ws[0].as_str(), "workon") {
            Ok(Activity { start: t, activitytype: ActivityType::WorkOn(node) })
        } else if same_text(ws[0].as_str(), "finish") {
            Ok(Activity { start: t, activitytype: ActivityType::Finish(node) })
        } else {
            Err(CacheError::InvalidType)
        }
    }
}

/// The activities' lines, each ended by a line feed; none if a time has no
/// calendar date.
pub open spec fn pool_text(tree: Tree, pool: Seq<Activity>, k: int) -> Option<Seq<char>>
    decreases k,
{
    if k <= 0 {
        Some(seq![])
    } else {
        match (pool_text(tree, pool, k - 1), timestamp_text(pool[k - 1].start as int)) {
            (Some(a), Some(t)) => Some(a + activity_text(tree, t, pool[k - 1]) + "\n"@),
            _ => None,
        }
    }
}

/// The header of a genome's record.
pub open spec fn fitness_line(c: Option<Fitness>) -> Seq<char> {
    "fitness "@ + match c {
        None => "none"@,
        Some(f) => fitness_text(f as int),
    } + "\n"@
}

/// A genome's record in the population cache.
pub open spec fn genome_text(tree: Tree, g: Genome) -> Option<Seq<char>> {
    match pool_text(tree, g.pool@, g.pool@.len() as int) {
        Some(b) => Some(fitness_line(g.cached_fitness) + b),
        None => None,
    }
}

/// Every activity names only nodes of the tree.
pub open spec fn pool_refs_valid(tree: Tree, pool: Seq<Activity>) -> bool {
    forall|k: int| 0 <= k < pool.len() ==> activity_refs_valid(tree, #[trigger] pool[k])
}

/// A line that holds a genome's fitness, which reading skips.
pub open spec fn is_fitness_line(l: Seq<char>) -> bool {
    "fitness "@.len() <= l.len() && l.subrange(0, "fitness "@.len() as int) == "fitness "@
}

/// The activities read from the first `k` lines, or the first line that
/// could not be read, with why.
pub open spec fn read_pool(tree: Tree, lines: Seq<Seq<char>>, k: int) -> Result<
    (Seq<Activity>, Option<Fitness>),
    (int, CacheError),
>
    decreases k,
{
    if k <= 0 {
        Ok((seq![], None))
    } else {
        match read_pool(tree, lines, k - 1) {
            Err(e) => Err(e),
            Ok((p, h)) => if is_fitness_line(lines[k - 1]) {
                match header_value(lines[k - 1].subrange(8, lines[k - 1].len() as int)) {
                    Some(v) => Ok((p, v)),
                    None => Err((k - 1, CacheError::BadFitness)),
                }
            } else {
                match activity_from_text(tree, lines[k - 1]) {
                    Ok(a) => Ok((p.push(a), h)),
                    Err(e) => Err((k - 1, e)),
                }
            },
        }
    }
}

impl Genome {
    /// The genome's record in the population cache: `fitness <value>` or
    /// `fitness none`, then one line per activity; none when a time has no
    /// calendar date.
    pub fn to_string(&self, tree: &Tree) -> (r: Option<String>)
        requires
            pool_refs_valid(*tree, self.pool@),
        ensures
            opt_view(r) == genome_text(*tree, *self),
    {
        let mut result = String::new();
        result.append("fitness ");
        match self.cached_fitness {
            None => {
                result.append("none");
            },
            Some(f) => {
                let text = format_fitness(f);
                result.append(text.as_str());
            },
        }
        result.append("\n");
        let ghost head = result@;
        proof {
            assert(head == fitness_line(self.cached_fitness));
        }
        let mut i: usize = 0;
        while i < self.pool.len()
            invariant
                pool_refs_valid(*tree, self.pool@),
                i <= self.pool@.len(),
                pool_text(*tree, self.pool@, i as int) matches Some(b) && result@ == head + b,
            decreases self.pool@.len() - i,
        {
            let a = self.pool[i];
            assert(activity_refs_valid(*tree, a));
            let time = match format_timestamp(a.start) {
                Some(t) => t,
                None => {
                    proof {
                        lemma_pool_text_none(*tree, self.pool@, i + 1, self.pool@.len() as int);
                    }
                    return None;
                },
            };
            let mut line = time;
            a.write_to_string(tree, &mut line);
            result.append(line.as_str());
            result.append("\n");
            proof {
                let b = pool_text(*tree, self.pool@, i as int)->Some_0;
                assert(result@ =~= head + (b + line@ + "\n"@));
            }
            i = i + 1;
        }
        Some(result)
    }

    /// Appends the genome's record to `result`; returns false, leaving
    /// `result` as it was, when a time has no calendar date.
    pub fn write_to_string(&self, tree: &Tree, result: &mut String) -> (ok: bool)
        requires
            pool_refs_valid(*tree, self.pool@),
        ensures
            match genome_text(*tree, *self) {
                Some(t) => ok && final(result)@ == old(result)@ + t,
                None => !ok && final(result)@ == old(result)@,
            },
    {
        match self.to_string(tree) {
            Some(t) => {
                result.append(t.as_str());
                true
            },
            None => false,
        }
    }

    /// Reads a genome's record: its `fitness` line gives the cached fitness
    /// (`none`, or a decimal as `to_string` writes it), the other lines its
    /// activities. A line that cannot be read is an error naming its line
    /// number.
    #[verifier::spinoff_prover]
    pub fn from_string(tree: &Tree, text: &str) -> (r: Result<Genome, String>)
        ensures
            match read_pool(*tree, text_lines(text@), text_lines(text@).len() as int) {
                Ok((p, h)) => r matches Ok(g) && g.pool@ == p && g.cached_fitness == h,
                Err((k, e)) => r matches Err(m) && m@ == "Line "@ + decimal((k + 1) as nat) + ": "@
                    + cache_error_text(e),
            },
    {
        let lines = split_lines(text);
        let ghost ls = text_lines(text@);
        let mut pool: Vec<Activity> = Vec::new();
        let mut fit: Option<Fitness> = None;
        let mut i: usize = 0;
        while i < lines.len()
            invariant
                lines@.map_values(|l: String| l@) == ls,
                ls == text_lines(text@),
                ls.len() == lines@.len(),
                i <= lines@.len(),
                read_pool(*tree, ls, i as int) == Ok::<(Seq<Activity>, Option<Fitness>), (int, CacheError)>(
                    (pool@, fit),
                ),
            decreases lines@.len() - i,
        {
            let line = lines[i].as_str();
            assert(ls[i as int] == line@);
            proof {
                reveal_strlit("fitness ");
            }
            if starts_with(line, "fitness ") {
                let n = line.unicode_len();
                let rest = line.substring_char(8, n);
                match read_header_value(rest) {
                    Some(v) => {
                        fit = v;
                    },
                    None => {
                        proof {
                            assert(read_pool(*tree, ls, i + 1) == Err::<(Seq<Activity>, Option<Fitness>), (int, CacheError)>(
                                (i as int, CacheError::BadFitness),
                            ));
                            lemma_read_pool_err(*tree, ls, i + 1, ls.len() as int);
                        }
                        let m = CacheError::BadFitness.message();
                        return Err(line_error(i + 1, m));
                    },
                }
                i = i + 1;
                continue;
            }
            match Activity::from_string(tree, line) {
                Ok(a) => {
                    pool.push(a);
                },
                Err(e) => {
                    proof {
                        assert(!is_fitness_line(ls[i as int]));
                        assert(read_pool(*tree, ls, i + 1) == Err::<(Seq<Activity>, Option<Fitness>), (int, CacheError)>(
                            (i as int, e),
                        ));
                        lemma_read_pool_err(*tree, ls, i + 1, ls.len() as int);
                    }
                    return Err(line_error(i + 1, e.message()));
                },
            }
            i = i + 1;
        }
        Ok(Genome { pool, cached_fitness: fit })
    }
}

proof fn lemma_pool_text_none(tree: Tree, pool: Seq<Activity>, k: int, m: int)
    requires
        0 <= k <= m,
        pool_text(tree, pool, k) is None,
    ensures
        pool_text(tree, pool, m) is None,
    decreases m - k,
{
    if m > k {
        lemma_pool_text_none(tree, pool, k, m - 1);
    }
}

proof fn lemma_read_pool_err(tree: Tree, lines: Seq<Seq<char>>, k: int, m: int)
    requires
        0 <= k <= m,
        read_pool(tree, lines, k) is Err,
    ensures
        read_pool(tree, lines, m) == read_pool(tree, lines, k),
    decreases m - k,
{
    if m > k {
        lemma_read_pool_err(tree, lines, k, m - 1);
    }
}

/// The records of the first `k` genomes, separated by `genome_separator`
/// lines; none if a time has no calendar date.
pub open spec fn pop_text(tree: Tree, pop: Seq<Genome>, k: int) -> Option<Seq<char>>
    decreases k,
{
    if k <= 0 {
        Some(seq![])
    } else {
        match (pop_text(tree, pop, k - 1), genome_text(tree, pop[k - 1])) {
            (Some(a), Some(t)) => Some(
                if k == 1 {
                    t
                } else {
                    a + "genome_separator\n"@ + t
                },
            ),
            _ => None,
        }
    }
}

proof fn lemma_pop_text_none(tree: Tree, pop: Seq<Genome>, k: int, m: int)
    requires
        0 <= k <= m,
        pop_text(tree, pop, k) is None,
    ensures
        pop_text(tree, pop, m) is None,
    decreases m - k,
{
    if m > k {
        lemma_pop_text_none(tree, pop, k, m - 1);
    }
}

/// The population cache: the genomes' records, separated.
pub fn pop_to_str(tree: &Tree, pop: &Vec<Genome>) -> (r: Option<String>)
    requires
        forall|k: int| 0 <= k < pop@.len() ==> pool_refs_valid(*tree, #[trigger] pop@[k].pool@),
    ensures
        opt_view(r) == pop_text(*tree, pop@, pop@.len() as int),
{
    let mut result = String::new();
    let mut index: usize = 0;
    while index < pop.len()
        invariant
            index <= pop@.len(),
            forall|k: int| 0 <= k < pop@.len() ==> pool_refs_valid(*tree, #[trigger] pop@[k].pool@),
            pop_text(*tree, pop@, index as int) == Some(result@),
        decreases pop@.len() - index,
    {
        let ghost before = result@;
        assert(pool_refs_valid(*tree, pop@[index as int].pool@));
        let text = match pop[index].to_string(tree) {
            Some(t) => t,
            None => {
                proof {
                    lemma_pop_text_none(*tree, pop@, index + 1, pop@.len() as int);
                }
                return None;
            },
        };
        if index != 0 {
            result.append("genome_separator\n");
        }
        result.append(text.as_str());
        proof {
            if index == 0 {
                assert(result@ =~= text@);
            } else {
                assert(result@ =~= before + "genome_separator\n"@ + text@);
            }
        }
        index = index + 1;
    }
    Some(result)
}

/// What a record of the population cache holds: nothing when it is blank,
/// else a genome's activities and fitness; an error when a line cannot be
/// read.
pub open spec fn record_pool(tree: Tree, chunk: Seq<char>) -> Result<
    Option<(Seq<Activity>, Option<Fitness>)>,
    Seq<char>,
> {
    let body = trimmed(chunk);
    if body.len() == 0 {
        Ok(None)
    } else {
        match read_pool(tree, text_lines(body), text_lines(body).len() as int) {
            Ok(p) => Ok(Some(p)),
            Err((k, e)) => Err("Line "@ + decimal((k + 1) as nat) + ": "@ + cache_error_text(e)),
        }
    }
}

/// The error for a record that cannot be read, the `r`-th genome of the cache.
pub open spec fn record_error(r: int, msg: Seq<char>) -> Seq<char> {
    "Parsing genome "@ + decimal((r + 1) as nat) + ": "@ + msg
}

/// The genomes' activities read from the first `k` lines, and the record
/// being gathered.
pub open spec fn read_pop(tree: Tree, lines: Seq<Seq<char>>, k: int) -> Result<
    (Seq<(Seq<Activity>, Option<Fitness>)>, Seq<char>),
    Seq<char>,
>
    decreases k,
{
    if k <= 0 {
        Ok((seq![], seq![]))
    } else {
        match read_pop(tree, lines, k - 1) {
            Err(m) => Err(m),
            Ok((pools, chunk)) => if lines[k - 1] == "genome_separator"@ {
                match record_pool(tree, chunk) {
                    Err(m) => Err(record_error(pools.len() as int, m)),
                    Ok(None) => Ok((pools, seq![])),
                    Ok(Some(p)) => Ok((pools.push(p), seq![])),
                }
            } else {
                Ok((pools, chunk + lines[k - 1] + "\n"@))
            },
        }
    }
}

/// The genomes' activities and fitnesses that a population cache holds,
/// record by record.
pub open spec fn pop_pools(tree: Tree, text: Seq<char>) -> Result<Seq<(Seq<Activity>, Option<Fitness>)>, Seq<char>> {
    let ls = text_lines(text);
    match read_pop(tree, ls, ls.len() as int) {
        Err(m) => Err(m),
        Ok((pools, chunk)) => match record_pool(tree, chunk) {
            Err(m) => Err(record_error(pools.len() as int, m)),
            Ok(None) => Ok(pools),
            Ok(Some(p)) => Ok(pools.push(p)),
        },
    }
}

proof fn lemma_read_pop_err(tree: Tree, lines: Seq<Seq<char>>, k: int, m: int)
    requires
        0 <= k <= m,
        read_pop(tree, lines, k) is Err,
    ensures
        read_pop(tree, lines, m) == read_pop(tree, lines, k),
    decreases m - k,
{
    if m > k {
        lemma_read_pop_err(tree, lines, k, m - 1);
    }
}

/// Reads one record of the population cache; a blank record holds no genome.
fn read_record(tree: &Tree, chunk: &String, index: usize) -> (r: Result<Option<Genome>, String>)
    ensures
        match record_pool(*tree, chunk@) {
            Ok(None) => r matches Ok(None),
            Ok(Some(p)) => r matches Ok(Some(g)) && g.pool@ == p.0 && g.cached_fitness == p.1,
            Err(msg) => r matches Err(m) && m@ == record_error(index as int, msg),
        },
{
    let body = trim(chunk.as_str());
    if body.unicode_len() == 0 {
        return Ok(None);
    }
    match Genome::from_string(tree, body.as_str()) {
        Ok(g) => Ok(Some(g)),
        Err(e) => {
            let mut msg = String::new();
            msg.append("Parsing genome ");
            let num = decimal_text(index as u128 + 1);
            msg.append(num.as_str());
            msg.append(": ");
            msg.append(e.as_str());
            Err(msg)
        },
    }
}

/// Reads a population cache: records separated by `genome_separator`
/// lines; blank records are skipped.
#[verifier::spinoff_prover]
pub fn pop_from_str(tree: &Tree, text: &str) -> (r: Result<Vec<Genome>, String>)
    ensures
        match pop_pools(*tree, text@) {
            Ok(pools) => r matches Ok(pop) && pop@.len() == pools.len() && forall|k: int|
                0 <= k < pop@.len() ==> (#[trigger] pop@[k]).pool@ == pools[k].0 && pop@[k].cached_fitness
                    == pools[k].1,
            Err(msg) => r matches Err(m) && m@ == msg,
        },
{
    let lines = split_lines(text);
    let ghost ls = text_lines(text@);
    let mut pop: Vec<Genome> = Vec::new();
    let mut chunk = String::new();
    let mut i: usize = 0;
    proof {
        assert(pop@.map_values(|g: Genome| (g.pool@, g.cached_fitness)) =~= Seq::<(Seq<Activity>, Option<Fitness>)>::empty());
        assert(chunk@ =~= Seq::<char>::empty());
    }
    while i < lines.len()
        invariant
            ls == text_lines(text@),
            lines@.map_values(|l: String| l@) == ls,
            ls.len() == lines@.len(),
            i <= lines@.len(),
            read_pop(*tree, ls, i as int) == Ok::<(Seq<(Seq<Activity>, Option<Fitness>)>, Seq<char>), Seq<char>>(
                (pop@.map_values(|g: Genome| (g.pool@, g.cached_fitness)), chunk@),
            ),
            decreases lines@.len() - i,
    {
        assert(ls[i as int] == lines@[i as int]@);
        if same_text(lines[i].as_str(), "genome_separator") {
            match read_record(tree, &chunk, pop.len()) {
                Ok(Some(g)) => {
                    let ghost before = pop@;
                    pop.push(g);
                    proof {
                        assert(pop@.map_values(|g: Genome| (g.pool@, g.cached_fitness)) =~= before.map_values(
                            |g: Genome| (g.pool@, g.cached_fitness),
                        ).push((g.pool@, g.cached_fitness)));
                    }
                },
                Ok(None) => {},
                Err(e) => {
                    proof {
                        assert(read_pop(*tree, ls, i + 1) is Err);
                        lemma_read_pop_err(*tree, ls, i + 1, ls.len() as int);
                    }
                    return Err(e);
                },
            }
            chunk = String::new();
        } else {
            let ghost old_chunk = chunk@;
            chunk.append(lines[i].as_str());
            chunk.append("\n");
            proof {
                assert(chunk@ =~= old_chunk + ls[i as int] + "\n"@);
            }
        }
        i = i + 1;
    }
    match read_record(tree, &chunk, pop.len()) {
        Ok(Some(g)) => {
            let ghost before = pop@;
            pop.push(g);
            proof {
                assert(pop@.map_values(|g: Genome| (g.pool@, g.cached_fitness)) =~= before.map_values(
                    |g: Genome| (g.pool@, g.cached_fitness),
                ).push((g.pool@, g.cached_fitness)));
            }
        },
        Ok(None) => {},
        Err(e) => {
            return Err(e);
        },
    }
    proof {
        assert forall|k: int| 0 <= k < pop@.len() implies (#[trigger] pop@[k]).pool@ == pop@.map_values(
            |g: Genome| (g.pool@, g.cached_fitness),
        )[k].0 && pop@[k].cached_fitness == pop@.map_values(|g: Genome| (g.pool@, g.cached_fitness))[k].1 by {}
    }
    Ok(pop)
}

/// The ten digits have the values 0 to 9.
proof fn lemma_digit_table()
    ensures
        forall|i: int| 0 <= i < 10 ==> 0x30 <= (#[trigger] digit(i)) as u32 <= 0x39 && digit_value(digit(i)) == i,
{
    assert forall|i: int| 0 <= i < 10 implies 0x30 <= (#[trigger] digit(i)) as u32 <= 0x39 && digit_value(digit(i))
        == i by {
        let d = seq!['0', '1', '2', '3', '4', '5', '6', '7', '8', '9'];
        assert(digit(i) == d[i]);
        if i == 0 {
            assert(d[0] == '0');
        } else if i == 1 {
            assert(d[1] == '1');
        } else if i == 2 {
            assert(d[2] == '2');
        } else if i == 3 {
            assert(d[3] == '3');
        } else if i == 4 {
            assert(d[4] == '4');
        } else if i == 5 {
            assert(d[5] == '5');
        } else if i == 6 {
            assert(d[6] == '6');
        } else if i == 7 {
            assert(d[7] == '7');
        } else if i == 8 {
            assert(d[8] == '8');
        } else {
            assert(d[9] == '9');
        }
    }
}

/// Decimal digits read back as the number they write.
proof fn lemma_decimal_value(n: nat)
    ensures
        all_digits(decimal(n)),
        digits_value(decimal(n)) == n,
    decreases n,
{
    lemma_digit_table();
    let d = seq!['0', '1', '2', '3', '4', '5', '6', '7', '8', '9'];
    if n < 10 {
        assert(d[n as int] == digit(n as int));
        let s = decimal(n);
        assert(s == seq![digit(n as int)]);
        assert(s.drop_last() =~= Seq::<char>::empty());
        assert(digits_value(Seq::<char>::empty()) == 0);
        assert(s.last() == digit(n as int));
        assert(digit_value(digit(n as int)) == n);
        assert(digits_value(s) == digits_value(s.drop_last()) * 10 + digit_value(s.last()));
    } else {
        lemma_decimal_value(n / 10);
        let r = (n % 10) as int;
        assert(d[r] == digit(r));
        let s = decimal(n);
        assert(s == decimal(n / 10).push(digit(r)));
        assert(s.drop_last() =~= decimal(n / 10));
        assert forall|k: int| 0 <= k < s.len() implies 0x30 <= (#[trigger] s[k]) as u32 <= 0x39 by {
            if k < s.len() - 1 {
                assert(s[k] == decimal(n / 10)[k]);
            }
        }
        assert(n == (n / 10) * 10 + n % 10);
        assert(s.last() == digit(r));
        assert(digit_value(digit(r)) == r);
        assert(digits_value(s) == digits_value(s.drop_last()) * 10 + digit_value(s.last()));
    }
}

/// The first `m` of the nine digits of `x` write `x / 10^(9 - m)`.
proof fn lemma_nine_prefix(x: int, m: int)
    requires
        0 <= x < 1_000_000_000,
        0 <= m <= 9,
    ensures
        digits_value(nine_digits(x).subrange(0, m)) == x / pow10((9 - m) as nat),
        forall|k: int| 0 <= k < m ==> 0x30 <= (#[trigger] nine_digits(x)[k]) as u32 <= 0x39,
    decreases m,
{
    reveal_with_fuel(pow10, 10);
    lemma_digit_table();
    if m == 0 {
        assert(nine_digits(x).subrange(0, 0) =~= Seq::<char>::empty());
        assert(pow10(9) == 1_000_000_000);
        assert(x / 1_000_000_000 == 0);
    } else {
        lemma_nine_prefix(x, m - 1);
        let p = pow10((9 - m) as nat);
        let q = pow10((9 - (m - 1)) as nat);
        assert(q == 10 * p);
        assert(p > 0);
        let s = nine_digits(x).subrange(0, m);
        assert(s.drop_last() =~= nine_digits(x).subrange(0, m - 1));
        assert(s.last() == nine_digits(x)[m - 1]);
        let v = x / p;
        assert(0 <= v % 10 < 10);
        assert(nine_digits(x)[m - 1] == digit(v % 10));
        vstd::arithmetic::div_mod::lemma_div_denominator(x, p, 10);
        assert(p * 10 == q);
        vstd::arithmetic::div_mod::lemma_fundamental_div_mod(v, 10);
        assert(v == (v / 10) * 10 + v % 10);
        assert(v / 10 == x / q);
        assert(digits_value(s) == digits_value(s.drop_last()) * 10 + digit_value(s.last()));
        assert(digit_value(digit(v % 10)) == v % 10);
        assert(digits_value(s.drop_last()) == x / q);
        assert(forall|k: int| 0 <= k < m ==> 0x30 <= (#[trigger] nine_digits(x)[k]) as u32 <= 0x39);
    }
}

/// Dropping trailing zeros divides by ten for each zero.
proof fn lemma_strip_zeros(s: Seq<char>)
    requires
        forall|k: int| 0 <= k < s.len() ==> 0x30 <= (#[trigger] s[k]) as u32 <= 0x39,
    ensures
        strip_zeros(s).len() <= s.len(),
        strip_zeros(s) == s.subrange(0, strip_zeros(s).len() as int),
        digits_value(strip_zeros(s)) * pow10((s.len() - strip_zeros(s).len()) as nat) == digits_value(s),
    decreases s.len(),
{
    if s.len() > 0 && s.last() == '0' {
        let t = s.drop_last();
        lemma_strip_zeros(t);
        let z = strip_zeros(t);
        assert(strip_zeros(s) == z);
        assert(t.subrange(0, z.len() as int) =~= s.subrange(0, z.len() as int));
        let e = (t.len() - z.len()) as nat;
        assert(pow10((s.len() - z.len()) as nat) == 10 * pow10(e)) by {
            assert((s.len() - z.len()) as nat == e + 1);
        }
        assert(digit_value(s.last()) == 0);
        assert(digits_value(s) == digits_value(t) * 10);
        assert(digits_value(z) * (10 * pow10(e)) == (digits_value(z) * pow10(e)) * 10) by (nonlinear_arith);
    } else {
        assert(s.subrange(0, s.len() as int) =~= s);
        assert(pow10(0) == 1);
    }
}

/// Reading back the fitness that a record's header writes gives the same
/// fitness.
pub proof fn lemma_fitness_round_trip(f: u128)
    ensures
        header_value(fitness_text(f as int)) == Some(Some(f)),
{
    reveal_with_fuel(pow10, 10);
    let w = (f / FITNESS_ONE) as nat;
    let frac = (f % FITNESS_ONE) as int;
    let whole = decimal(w);
    lemma_decimal_value(w);
    crate::text::lemma_index_of_range(whole, '.');
    let text = fitness_text(f as int);
    reveal_strlit("none");
    assert(text[0] == whole[0]);
    assert(whole[0] != 'n');
    assert(text != "none"@);
    if frac == 0 {
        assert(text == whole);
        assert(fitness_of_text(text) == Some(w * FITNESS_ONE));
        assert(w * FITNESS_ONE == f);
    } else {
        let nine = nine_digits(frac);
        lemma_nine_prefix(frac, 9);
        assert(nine.subrange(0, 9) =~= nine);
        assert(pow10(0) == 1);
        lemma_strip_zeros(nine);
        let z = strip_zeros(nine);
        let e = (9 - z.len()) as nat;
        assert(digits_value(z) * pow10(e) == frac);
        if z.len() == 0 {
            assert(digits_value(z) == 0);
            assert(false);
        }
        assert(all_digits(z)) by {
            assert forall|k: int| 0 <= k < z.len() implies 0x30 <= (#[trigger] z[k]) as u32 <= 0x39 by {
                assert(z[k] == nine[k]);
            }
        }
        let rest = seq!['.'] + z;
        assert(text == whole + rest);
        crate::text::lemma_index_of_concat(whole, rest, '.');
        assert(index_of(rest, '.') == Some(0int));
        assert(index_of(text, '.') == Some(whole.len() as int));
        assert(text.subrange(0, whole.len() as int) =~= whole);
        assert(text.subrange(whole.len() + 1int, text.len() as int) =~= z);
        assert(w * FITNESS_ONE + frac == f);
    }
}

} // verus!
