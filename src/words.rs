//! Word jumps within a line. The line is split by a regular expression,
//! `(\w+ *|. *)` leftward (a run of word characters, or one other character,
//! with the spaces after it) and `( *\w+| *.)` rightward (leading spaces, then
//! a run of word characters or one other character); a jump lands on an edge
//! of the match that holds the cursor.
use vstd::prelude::*;
use vstd::string::*;

verus! {

/// One match as a pair of texts: what precedes it, and what it matched.
pub type Found = Option<(String, String)>;

/// Names what `fancy_regex` finds for `pattern` in `text`: `None` when the
/// pattern does not compile; else each match in turn as the text before it
/// and the text it matched, or `None` where the search failed.
pub uninterp spec fn regex_finds(pattern: Seq<char>, text: Seq<char>) -> Option<Seq<Option<(Seq<char>, Seq<char>)>>>;

/// The texts of the matches.
pub open spec fn found_texts(v: Seq<Found>) -> Seq<Option<(Seq<char>, Seq<char>)>> {
    v.map_values(
        |f: Found|
            match f {
                Some((a, b)) => Some((a@, b@)),
                None => None,
            },
    )
}

/// Relies on `fancy_regex::Regex::new` and `Regex::find_iter`: every match
/// of `pattern` in `text`, in order, each given by the text before it and the
/// text it matched.
#[verifier::external_body]
fn find_matches(pattern: &str, text: &str) -> (r: Option<Vec<Found>>)
    ensures
        match r {
            Some(v) => regex_finds(pattern@, text@) == Some(found_texts(v@)),
            None => regex_finds(pattern@, text@) is None,
        },
{
    match fancy_regex::Regex::new(pattern) {
        Ok(re) => Some(
            re.find_iter(text).map(|m| m.ok().map(|m| (text[..m.start()].to_string(), m.as_str().to_string()))).collect(),
        ),
        Err(_) => None,
    }
}

/// Relies on `char::to_string`: the text holding just `c`.
#[verifier::external_body]
pub(crate) fn char_string(c: char) -> (r: String)
    ensures
        r@ == seq![c],
{
    c.to_string()
}

/// The leftward pattern, `(\w+ *|. *)`.
pub open spec fn left_pattern() -> Seq<char> {
    seq!['(', '\\', 'w', '+', ' ', '*', '|', '.', ' ', '*', ')']
}

/// The rightward pattern, `( *\w+| *.)`.
pub open spec fn right_pattern() -> Seq<char> {
    seq!['(', ' ', '*', '\\', 'w', '+', '|', ' ', '*', '.', ')']
}

/// Where a leftward jump from column `c` lands: the start of the first
/// match, from match `i` on, that ends at or after `c`, if it starts at or
/// before `c`; else `c`.
pub open spec fn left_target(f: Seq<Option<(Seq<char>, Seq<char>)>>, c: int, i: int) -> int
    decreases f.len() - i,
{
    if i >= f.len() || i < 0 {
        c
    } else {
        match f[i] {
            Some((pre, m)) => if c <= pre.len() + m.len() {
                if pre.len() <= c {
                    pre.len() as int
                } else {
                    c
                }
            } else {
                left_target(f, c, i + 1)
            },
            None => left_target(f, c, i + 1),
        }
    }
}

/// Where a rightward jump from column `c` in a line of length `n` lands:
/// the end of the first match, from match `i` on, that holds `c` and ends
/// within the line; else `c`.
pub open spec fn right_target(f: Seq<Option<(Seq<char>, Seq<char>)>>, c: int, n: int, i: int) -> int
    decreases f.len() - i,
{
    if i >= f.len() || i < 0 {
        c
    } else {
        match f[i] {
            Some((pre, m)) => if pre.len() <= c < pre.len() + m.len() && pre.len() + m.len() <= n {
                (pre.len() + m.len()) as int
            } else {
                right_target(f, c, n, i + 1)
            },
            None => right_target(f, c, n, i + 1),
        }
    }
}

/// The column a word jump from column `c` of `line` lands on.
pub open spec fn jump_target(line: Seq<char>, c: int, left: bool) -> int {
    if left {
        match regex_finds(left_pattern(), line) {
            Some(f) => left_target(f, c, 0),
            None => c,
        }
    } else {
        match regex_finds(right_pattern(), line) {
            Some(f) => right_target(f, c, line.len() as int, 0),
            None => c,
        }
    }
}

/// A jump never goes past the column it starts from leftward, nor past the
/// line rightward.
pub proof fn lemma_targets_within(f: Seq<Option<(Seq<char>, Seq<char>)>>, c: int, n: int, i: int)
    requires
        0 <= c <= n,
    ensures
        0 <= left_target(f, c, i) <= c,
        0 <= right_target(f, c, n, i) <= n,
    decreases f.len() - i,
{
    if 0 <= i < f.len() {
        lemma_targets_within(f, c, n, i + 1);
    }
}

/// A jump from a column of the line lands within the line.
pub proof fn lemma_jump_within(line: Seq<char>, c: int, left: bool)
    requires
        0 <= c <= line.len(),
    ensures
        0 <= jump_target(line, c, left) <= line.len(),
{
    match regex_finds(left_pattern(), line) {
        Some(f) => lemma_targets_within(f, c, line.len() as int, 0),
        None => {},
    }
    match regex_finds(right_pattern(), line) {
        Some(f) => lemma_targets_within(f, c, line.len() as int, 0),
        None => {},
    }
}

/// The column a word jump from column `c` of `line` lands on.
pub fn word_jump(line: &str, c: usize, left: bool) -> (r: usize)
    requires
        c <= line@.len(),
    ensures
        r == jump_target(line@, c as int, left),
        r <= line@.len(),
{
    let n = line.unicode_len();
    let pattern = if left {
        "(\\w+ *|. *)"
    } else {
        "( *\\w+| *.)"
    };
    proof {
        reveal_strlit("(\\w+ *|. *)");
        reveal_strlit("( *\\w+| *.)");
        if left {
            assert(pattern@ =~= left_pattern());
        } else {
            assert(pattern@ =~= right_pattern());
        }
    }
    let found = match find_matches(pattern, line) {
        Some(v) => v,
        None => {
            return c;
        },
    };
    let ghost f = found_texts(found@);
    proof {
        lemma_targets_within(f, c as int, n as int, 0);
        assert(jump_target(line@, c as int, left) == if left {
            left_target(f, c as int, 0)
        } else {
            right_target(f, c as int, n as int, 0)
        });
    }
    let mut i: usize = 0;
    while i < found.len()
        invariant
            f == found_texts(found@),
            i <= found@.len(),
            c <= n,
            n == line@.len(),
            jump_target(line@, c as int, left) == if left {
                left_target(f, c as int, 0)
            } else {
                right_target(f, c as int, n as int, 0)
            },
            0 <= left_target(f, c as int, 0) <= c,
            0 <= right_target(f, c as int, n as int, 0) <= n,
            left ==> left_target(f, c as int, 0) == left_target(f, c as int, i as int),
            !left ==> right_target(f, c as int, n as int, 0) == right_target(f, c as int, n as int, i as int),
        decreases found@.len() - i,
    {
        match &found[i] {
            Some((pre, m)) => {
                let s = pre.as_str().unicode_len();
                let l = m.as_str().unicode_len();
                proof {
                    assert(f[i as int] == Some((pre@, m@)));
                }
                if left {
                    if c <= s || c - s <= l {
                        proof {
                            lemma_targets_within(f, c as int, n as int, 0);
                        }
                        return if s <= c {
                            s
                        } else {
                            c
                        };
                    }
                } else if s <= c && c - s < l && l <= n - s {
                    return s + l;
                }
            },
            None => {
                assert(f[i as int] is None);
            },
        }
        i = i + 1;
    }
    c
}

} // verus!
