//! Lines and columns of a character sequence.
use vstd::prelude::*;
use vstd::string::*;

verus! {

/// How many newlines stand among the first `i` characters of `s`.
pub open spec fn newlines_before(s: Seq<char>, i: int) -> nat
    decreases i,
{
    if i <= 0 {
        0
    } else {
        newlines_before(s, i - 1) + if s[i - 1] == '\n' {
            1nat
        } else {
            0nat
        }
    }
}

/// Where the line that holds offset `i` begins: just after the last newline
/// before `i`, or at `0`.
pub open spec fn line_start_at(s: Seq<char>, i: int) -> int
    decreases i,
{
    if i <= 0 {
        0
    } else if s[i - 1] == '\n' {
        i
    } else {
        line_start_at(s, i - 1)
    }
}

/// The line and column of offset `i`, both counted from zero.
pub open spec fn text_pos(s: Seq<char>, i: int) -> (int, int) {
    (newlines_before(s, i) as int, i - line_start_at(s, i))
}

/// The characters of `s`, in order.
pub fn chars_of(s: &str) -> (v: Vec<char>)
    ensures
        v@ == s@,
{
    broadcast use vstd::string::group_string_axioms;

    let mut v: Vec<char> = Vec::new();
    for c in it: s.chars()
        invariant
            v@ == it.seq().take(it.index() as int),
    {
        v.push(c);
    }
    v
}

/// The first newline at or after `from`, or the end of `s`.
pub open spec fn line_end_from(s: Seq<char>, from: int) -> int
    decreases s.len() - from,
{
    if from >= s.len() {
        s.len() as int
    } else if from >= 0 && s[from] == '\n' {
        from
    } else {
        line_end_from(s, from + 1)
    }
}

/// Where line `l` begins (`l` at most the number of newlines).
pub open spec fn line_begin(s: Seq<char>, l: nat) -> int
    decreases l,
{
    if l == 0 {
        0
    } else {
        line_end_from(s, line_begin(s, (l - 1) as nat)) + 1
    }
}

/// The number of newlines in `s`; the lines are numbered `0` to this.
pub open spec fn last_line(s: Seq<char>) -> nat {
    newlines_before(s, s.len() as int)
}

/// No newline stands in `[from, to)`.
pub open spec fn no_newline(s: Seq<char>, from: int, to: int) -> bool {
    forall|k: int| from <= k < to ==> #[trigger] s[k] != '\n'
}

pub proof fn lemma_no_newline_since_line_start(s: Seq<char>, i: int)
    requires
        0 <= i <= s.len(),
    ensures
        0 <= line_start_at(s, i) <= i,
        no_newline(s, line_start_at(s, i), i),
    decreases i,
{
    if i > 0 && s[i - 1] != '\n' {
        lemma_no_newline_since_line_start(s, i - 1);
    }
}

proof fn lemma_newlines_monotone(s: Seq<char>, i: int, j: int)
    requires
        0 <= i <= j,
    ensures
        newlines_before(s, i) <= newlines_before(s, j),
    decreases j - i,
{
    if i < j {
        lemma_newlines_monotone(s, i, j - 1);
    }
}

proof fn lemma_line_end_skip(s: Seq<char>, from: int, j: int)
    requires
        0 <= from <= j <= s.len(),
        no_newline(s, from, j),
    ensures
        line_end_from(s, from) == line_end_from(s, j),
    decreases j - from,
{
    if from < j {
        lemma_line_end_skip(s, from + 1, j);
    }
}

proof fn lemma_line_end_bounds(s: Seq<char>, from: int)
    requires
        0 <= from <= s.len(),
    ensures
        from <= line_end_from(s, from) <= s.len(),
        no_newline(s, from, line_end_from(s, from)),
        line_end_from(s, from) < s.len() ==> s[line_end_from(s, from)] == '\n',
    decreases s.len() - from,
{
    if from < s.len() && s[from] != '\n' {
        lemma_line_end_bounds(s, from + 1);
    }
}

/// The line that holds offset `i` begins where `line_start_at` says.
pub proof fn lemma_line_begin_at(s: Seq<char>, i: int)
    requires
        0 <= i <= s.len(),
    ensures
        line_begin(s, newlines_before(s, i)) == line_start_at(s, i),
    decreases i,
{
    if i > 0 {
        lemma_line_begin_at(s, i - 1);
        if s[i - 1] == '\n' {
            lemma_no_newline_since_line_start(s, i - 1);
            lemma_line_end_skip(s, line_start_at(s, i - 1), i - 1);
        }
    }
}

/// The span `(begin, end)` of line `line` of `v`, without its newline, if the
/// line exists.
pub fn line_bounds(v: &Vec<char>, line: usize) -> (r: Option<(usize, usize)>)
    ensures
        r is Some <==> line <= last_line(v@),
        match r {
            Some((b, e)) => b == line_begin(v@, line as nat) && e == line_end_from(v@, b as int),
            None => true,
        },
{
    let n = v.len();
    let mut ln: usize = 0;
    let mut st: usize = 0;
    let mut i: usize = 0;
    while i < n
        invariant
            n == v.len(),
            i <= n,
            ln == newlines_before(v@, i as int),
            st == line_start_at(v@, i as int),
            ln <= line,
        decreases n - i,
    {
        if v[i] == '\n' {
            if ln == line {
                proof {
                    lemma_line_begin_at(v@, i as int);
                    lemma_no_newline_since_line_start(v@, i as int);
                    lemma_line_end_skip(v@, st as int, i as int);
                    lemma_newlines_monotone(v@, i as int + 1, n as int);
                }
                return Some((st, i));
            }
            ln = ln + 1;
            st = i + 1;
        }
        i = i + 1;
    }
    if ln == line {
        proof {
            lemma_line_begin_at(v@, n as int);
            lemma_no_newline_since_line_start(v@, n as int);
            lemma_line_end_skip(v@, st as int, n as int);
        }
        Some((st, n))
    } else {
        None
    }
}

/// The line and column of offset `idx`, if `idx` lies in `[0, v.len()]`.
pub fn pos_in(v: &Vec<char>, idx: usize) -> (r: Option<(usize, usize)>)
    ensures
        r is Some <==> idx <= v@.len(),
        match r {
            Some((l, c)) => (l as int, c as int) == text_pos(v@, idx as int),
            None => true,
        },
{
    if idx > v.len() {
        return None;
    }
    let mut ln: usize = 0;
    let mut st: usize = 0;
    let mut i: usize = 0;
    while i < idx
        invariant
            idx <= v.len(),
            i <= idx,
            ln == newlines_before(v@, i as int),
            st == line_start_at(v@, i as int),
            st <= i,
            ln <= i,
        decreases idx - i,
    {
        if v[i] == '\n' {
            ln = ln + 1;
            st = i + 1;
        }
        i = i + 1;
    }
    Some((ln, idx - st))
}

/// Some offset at or before `j` has exactly `l` newlines before it.
proof fn lemma_newlines_reach(s: Seq<char>, l: nat, j: int) -> (i: int)
    requires
        0 <= j <= s.len(),
        l <= newlines_before(s, j),
    ensures
        0 <= i <= j,
        newlines_before(s, i) == l,
    decreases j,
{
    if newlines_before(s, j) == l {
        j
    } else {
        lemma_newlines_reach(s, l, j - 1)
    }
}

/// Line `l`, when it exists, begins no later than it ends, and ends within `s`.
pub proof fn lemma_line_bounds_order(s: Seq<char>, l: nat)
    requires
        l <= last_line(s),
    ensures
        0 <= line_begin(s, l) <= line_end_from(s, line_begin(s, l)) <= s.len(),
{
    let i = lemma_newlines_reach(s, l, s.len() as int);
    lemma_line_begin_at(s, i);
    lemma_no_newline_since_line_start(s, i);
    lemma_line_end_bounds(s, line_begin(s, l));
}

/// The offset at `column` of line `line`, the column clamped to the line's
/// length; `None` when the line does not exist.
pub open spec fn index_at(s: Seq<char>, line: int, column: int) -> Option<int> {
    if 0 <= line <= last_line(s) {
        let b = line_begin(s, line as nat);
        let e = line_end_from(s, b);
        Some(b + if column <= e - b { column } else { e - b })
    } else {
        None
    }
}

/// Mapping an offset to its line and column and back gives the offset again,
/// the end of the content included.
pub proof fn lemma_pos_index_round_trip(s: Seq<char>, i: int)
    requires
        0 <= i <= s.len(),
    ensures
        index_at(s, text_pos(s, i).0, text_pos(s, i).1) == Some(i),
{
    lemma_newlines_monotone(s, i, s.len() as int);
    lemma_line_begin_at(s, i);
    lemma_no_newline_since_line_start(s, i);
    lemma_line_end_skip(s, line_start_at(s, i), i);
    lemma_line_end_bounds(s, i);
}

/// The length of line `l`, without its newline.
pub open spec fn line_len(s: Seq<char>, l: int) -> int {
    line_end_from(s, line_begin(s, l as nat)) - line_begin(s, l as nat)
}

/// Every offset lies on an existing line.
pub proof fn lemma_line_of_offset(s: Seq<char>, i: int)
    requires
        0 <= i <= s.len(),
    ensures
        0 <= text_pos(s, i).0 <= last_line(s),
{
    lemma_pos_index_round_trip(s, i);
}

/// A position found by line and column lies within the text.
pub proof fn lemma_index_at_within(s: Seq<char>, line: int, column: int)
    requires
        0 <= line <= last_line(s),
        column >= 0,
    ensures
        index_at(s, line, column) is Some,
        0 <= index_at(s, line, column)->0 <= s.len(),
{
    lemma_line_bounds_order(s, line as nat);
}

/// There are no more newlines before `i` than characters.
pub proof fn lemma_newlines_at_most(s: Seq<char>, i: int)
    requires
        0 <= i,
    ensures
        newlines_before(s, i) <= i,
    decreases i,
{
    if i > 0 {
        lemma_newlines_at_most(s, i - 1);
    }
}

} // verus!
