use vstd::prelude::*;
use vstd::std_specs::iter::IteratorSpec;
use crate::instruction::{Instruction, LexError, LexResult, is_symbol};

verus! {

broadcast use vstd::string::axiom_spec_iter;

/// The instruction characters of a source text, in order.
pub open spec fn code(s: Seq<char>) -> Seq<char> {
    s.filter(|c: char| is_symbol(c))
}

/// How a character changes the bracket nesting depth.
pub open spec fn delta(c: char) -> int {
    if c == '[' {
        1
    } else if c == ']' {
        -1
    } else {
        0
    }
}

/// Open brackets minus close brackets in `c`.
pub open spec fn depth(c: Seq<char>) -> int
    decreases c.len(),
{
    if c.len() == 0 {
        0
    } else {
        depth(c.drop_last()) + delta(c.last())
    }
}

/// The nesting depth before position `k` of `c`.
pub open spec fn level(c: Seq<char>, k: int) -> int {
    depth(c.take(k))
}

/// No prefix of `c` closes more brackets than it opens.
pub open spec fn never_negative(c: Seq<char>) -> bool {
    forall|k: int| 0 <= k <= c.len() ==> #[trigger] level(c, k) >= 0
}

/// The brackets of `c` pair up.
pub open spec fn well_formed(c: Seq<char>) -> bool {
    never_negative(c) && level(c, c.len() as int) == 0
}

/// The close bracket at `j` is the one that matches the open bracket at `i`.
pub open spec fn matching(c: Seq<char>, i: int, j: int) -> bool {
    &&& 0 <= i < j < c.len()
    &&& c[i] == '['
    &&& c[j] == ']'
    &&& level(c, j + 1) == level(c, i)
    &&& forall|k: int| i < k <= j ==> #[trigger] level(c, k) > level(c, i)
}

/// The close bracket at `m` is the first one that has no open bracket to match.
pub open spec fn unmatched_close(c: Seq<char>, m: int) -> bool {
    &&& 0 <= m < c.len()
    &&& c[m] == ']'
    &&& level(c, m + 1) < 0
    &&& forall|k: int| 0 <= k <= m ==> #[trigger] level(c, k) >= 0
}

/// The open bracket at `m` is never closed.
pub open spec fn unmatched_open(c: Seq<char>, m: int) -> bool {
    &&& 0 <= m < c.len()
    &&& c[m] == '['
    &&& forall|k: int| m < k <= c.len() ==> #[trigger] level(c, k) > level(c, m)
}

/// The index in `code(s)` of the character at position `p` of `s`.
pub open spec fn symbol_index(s: Seq<char>, p: int) -> int {
    code(s.take(p)).len() as int
}

/// `r` is the instruction sequence written by the instruction characters `c`,
/// with each loop's two jumps aimed just past each other's bracket.
pub open spec fn lexed(c: Seq<char>, r: Seq<Instruction>) -> bool {
    &&& r.len() == c.len()
    &&& forall|k: int| 0 <= k < c.len() ==> #[trigger] r[k].symbol() == c[k]
    &&& forall|i: int, j: int|
        #[trigger] matching(c, i, j) ==> r[i] == Instruction::JumpIfZero((j + 1) as usize) && r[j]
            == Instruction::JumpIfNonZero((i + 1) as usize)
}

pub proof fn lemma_level_step(c: Seq<char>, k: int)
    requires
        0 <= k < c.len(),
    ensures
        level(c, k + 1) == level(c, k) + delta(c[k]),
{
    assert(c.take(k + 1).drop_last() =~= c.take(k));
}

/// Appending to a sequence keeps the levels of its positions.
pub proof fn lemma_level_push(c: Seq<char>, x: char, k: int)
    requires
        0 <= k <= c.len(),
    ensures
        level(c.push(x), k) == level(c, k),
{
    assert(c.push(x).take(k) =~= c.take(k));
}

proof fn lemma_code_push(s: Seq<char>, p: int)
    requires
        0 <= p < s.len(),
    ensures
        code(s.take(p + 1)) == if is_symbol(s[p]) {
            code(s.take(p)).push(s[p])
        } else {
            code(s.take(p))
        },
{
    assert(s.take(p + 1).drop_last() =~= s.take(p));
    reveal(Seq::filter);
}

/// The instruction characters of a prefix are a prefix of the instruction characters.
proof fn lemma_code_prefix(s: Seq<char>, p: int, q: int)
    requires
        0 <= p <= q <= s.len(),
    ensures
        code(s.take(p)).len() <= code(s.take(q)).len(),
        code(s.take(q)).take(code(s.take(p)).len() as int) == code(s.take(p)),
    decreases q - p,
{
    if p == q {
        assert(code(s.take(q)).take(code(s.take(p)).len() as int) =~= code(s.take(p)));
    } else {
        lemma_code_prefix(s, p, q - 1);
        lemma_code_push(s, q - 1);
        let a = code(s.take(p));
        let b = code(s.take(q - 1));
        assert(code(s.take(q)).take(a.len() as int) =~= b.take(a.len() as int));
    }
}

/// Levels agree on a common prefix.
proof fn lemma_level_prefix(c: Seq<char>, d: Seq<char>, k: int)
    requires
        d.len() <= c.len(),
        c.take(d.len() as int) == d,
        0 <= k <= d.len(),
    ensures
        level(c, k) == level(d, k),
{
    assert(c.take(k) =~= d.take(k));
}

proof fn lemma_char_count(s: Seq<char>)
    ensures
        s.len() <= vstd::utf8::encode_utf8(s).len(),
    decreases s.len(),
{
    if s.len() > 0 {
        lemma_char_count(s.drop_first());
    }
}

/// The characters that a sequence of instructions is written as.
pub open spec fn symbols(r: Seq<Instruction>) -> Seq<char> {
    r.map_values(|x: Instruction| x.symbol())
}

/// Every jump of `r` has exactly one partner bracket, nested properly, and
/// the two jumps of a loop aim just past each other's bracket.
pub open spec fn paired(r: Seq<Instruction>) -> bool {
    &&& forall|i: int|
        0 <= i < r.len() && (#[trigger] r[i] is JumpIfZero) ==> exists|j: int|
            #[trigger] matching(symbols(r), i, j) && r[i] == Instruction::JumpIfZero((j + 1) as usize)
                && r[j] == Instruction::JumpIfNonZero((i + 1) as usize)
    &&& forall|j: int|
        0 <= j < r.len() && (#[trigger] r[j] is JumpIfNonZero) ==> exists|i: int|
            #[trigger] matching(symbols(r), i, j) && r[i] == Instruction::JumpIfZero((j + 1) as usize)
                && r[j] == Instruction::JumpIfNonZero((i + 1) as usize)
}

/// Some bracket of `c` has no partner.
pub open spec fn has_unmatched(c: Seq<char>) -> bool {
    exists|m: int|
        0 <= m < c.len() && ((c[m] == '[' && forall|j: int| !#[trigger] matching(c, m, j)) || (c[m]
            == ']' && forall|i: int| !#[trigger] matching(c, i, m)))
}

proof fn lemma_level_zero(c: Seq<char>)
    ensures
        level(c, 0) == 0,
{
    assert(c.take(0) =~= Seq::<char>::empty());
}

/// An open bracket has at most one partner, and so has a close bracket.
pub proof fn lemma_matching_unique(c: Seq<char>, i: int, j: int, i2: int, j2: int)
    requires
        matching(c, i, j),
        matching(c, i2, j2),
        i == i2 || j == j2,
    ensures
        i == i2 && j == j2,
{
    if i == i2 && j < j2 {
        assert(level(c, j + 1) > level(c, i));
    } else if i == i2 && j2 < j {
        assert(level(c, j2 + 1) > level(c, i));
    } else if j == j2 && i < i2 {
        assert(level(c, i2) > level(c, i));
    } else if j == j2 && i2 < i {
        assert(level(c, i) > level(c, i2));
    }
}

proof fn lemma_search_close(c: Seq<char>, i: int, k: int)
    requires
        well_formed(c),
        0 <= i < k <= c.len(),
        c[i] == '[',
        forall|k2: int| i < k2 <= k ==> #[trigger] level(c, k2) > level(c, i),
    ensures
        exists|j: int| matching(c, i, j),
    decreases c.len() - k,
{
    assert(level(c, i) >= 0);
    assert(k < c.len()) by {
        if k == c.len() {
            assert(level(c, k) > level(c, i));
        }
    }
    lemma_level_step(c, k);
    if level(c, k + 1) == level(c, i) {
        assert(matching(c, i, k));
    } else {
        lemma_search_close(c, i, k + 1);
    }
}

proof fn lemma_search_open(c: Seq<char>, j: int, k: int)
    requires
        well_formed(c),
        0 <= k < j < c.len(),
        c[j] == ']',
        forall|k2: int| k < k2 <= j ==> #[trigger] level(c, k2) > level(c, j + 1),
    ensures
        exists|i: int| matching(c, i, j),
    decreases k,
{
    assert(level(c, j + 1) >= 0);
    lemma_level_step(c, k);
    if level(c, k) == level(c, j + 1) {
        assert(matching(c, k, j));
    } else {
        lemma_level_zero(c);
        lemma_search_open(c, j, k - 1);
    }
}

/// In well-formed code every open bracket has a partner.
pub proof fn lemma_open_has_partner(c: Seq<char>, i: int)
    requires
        well_formed(c),
        0 <= i < c.len(),
        c[i] == '[',
    ensures
        exists|j: int| matching(c, i, j),
{
    lemma_level_step(c, i);
    lemma_search_close(c, i, i + 1);
}

/// In well-formed code every close bracket has a partner.
pub proof fn lemma_close_has_partner(c: Seq<char>, j: int)
    requires
        well_formed(c),
        0 <= j < c.len(),
        c[j] == ']',
    ensures
        exists|i: int| matching(c, i, j),
{
    lemma_level_step(c, j);
    lemma_level_zero(c);
    assert(level(c, j + 1) >= 0);
    lemma_search_open(c, j, j - 1);
}

/// Law: the instructions lexed from well-formed source have paired jumps,
/// each open jump aimed just past its close bracket and each close jump just
/// past its open bracket. (`BFLexer::parse` succeeds exactly on well-formed
/// source.)
pub proof fn lemma_lexed_jumps_pair_up(s: Seq<char>, r: Seq<Instruction>)
    requires
        well_formed(code(s)),
        lexed(code(s), r),
    ensures
        paired(r),
{
    let c = code(s);
    assert(symbols(r) =~= c);
    assert forall|i: int| 0 <= i < r.len() && (#[trigger] r[i] is JumpIfZero) implies exists|j: int|
        #[trigger] matching(symbols(r), i, j) && r[i] == Instruction::JumpIfZero((j + 1) as usize)
            && r[j] == Instruction::JumpIfNonZero((i + 1) as usize) by {
        assert(r[i].symbol() == c[i]);
        lemma_open_has_partner(c, i);
        let j = choose|j: int| matching(c, i, j);
        assert(matching(symbols(r), i, j));
    }
    assert forall|j: int| 0 <= j < r.len() && (#[trigger] r[j] is JumpIfNonZero) implies exists|i: int|
        #[trigger] matching(symbols(r), i, j) && r[i] == Instruction::JumpIfZero((j + 1) as usize)
            && r[j] == Instruction::JumpIfNonZero((i + 1) as usize) by {
        assert(r[j].symbol() == c[j]);
        lemma_close_has_partner(c, j);
        let i = choose|i: int| matching(c, i, j);
        assert(matching(symbols(r), i, j));
    }
}

/// Law: source with a bracket that has no partner is not well-formed, so
/// `BFLexer::parse` fails on it.
pub proof fn lemma_unmatched_bracket_fails(s: Seq<char>)
    requires
        has_unmatched(code(s)),
    ensures
        !well_formed(code(s)),
{
    let c = code(s);
    let m = choose|m: int|
        0 <= m < c.len() && ((c[m] == '[' && forall|j: int| !#[trigger] matching(c, m, j)) || (c[m]
            == ']' && forall|i: int| !#[trigger] matching(c, i, m)));
    if well_formed(c) {
        if c[m] == '[' {
            lemma_open_has_partner(c, m);
        } else {
            lemma_close_has_partner(c, m);
        }
    }
}

/// Lexes source text into instructions, resolving every loop's jump targets.
pub struct BFLexer {}

impl BFLexer {
    /// Scans `source` once. Lexing succeeds exactly when the brackets pair
    /// up; otherwise it reports the first close bracket that has no partner,
    /// or, when there is none, the first open bracket that is never closed.
    pub fn parse(source: &str) -> (r: LexResult)
        ensures
            (r is Success) <==> well_formed(code(source@)),
            match r {
                LexResult::Success(v) => lexed(code(source@), v@),
                LexResult::Failure(LexError::UnmatchedClose { position }) => {
                    &&& position < source@.len()
                    &&& source@[position as int] == ']'
                    &&& unmatched_close(code(source@), symbol_index(source@, position as int))
                },
                LexResult::Failure(LexError::UnmatchedOpen { position }) => {
                    &&& position < source@.len()
                    &&& source@[position as int] == '['
                    &&& never_negative(code(source@))
                    &&& unmatched_open(code(source@), symbol_index(source@, position as int))
                    &&& forall|m: int|
                        0 <= m < symbol_index(source@, position as int) ==> !unmatched_open(
                            code(source@),
                            m,
                        )
                },
            },
    {
        let ghost s = source@;
        let bytes = source.as_bytes().len();
        proof {
            lemma_char_count(s);
        }
        let mut out: Vec<Instruction> = Vec::new();
        // Open brackets still waiting for their partner: (instruction index, character position).
        let mut opens: Vec<(usize, usize)> = Vec::new();
        let mut pos: usize = 0;
        let chars = source.chars();
        assert(chars.remaining() == s);
        for ch in it: chars
            invariant
                it.seq() == s,
                s == source@,
                pos == it.index(),
                s.len() <= bytes,
                out@.len() == code(s.take(pos as int)).len(),
                forall|k: int|
                    0 <= k < out@.len() ==> #[trigger] out@[k].symbol() == code(
                        s.take(pos as int),
                    )[k],
                never_negative(code(s.take(pos as int))),
                opens@.len() == level(code(s.take(pos as int)), out@.len() as int),
                forall|t: int|
                    #![trigger opens@[t]]
                    0 <= t < opens@.len() ==> {
                        let (i, p) = opens@[t];
                        &&& i < out@.len()
                        &&& code(s.take(pos as int))[i as int] == '['
                        &&& level(code(s.take(pos as int)), i as int) == t
                        &&& forall|k: int|
                            i < k <= out@.len() ==> #[trigger] level(code(s.take(pos as int)), k)
                                > t
                        &&& p < pos
                        &&& s[p as int] == '['
                        &&& symbol_index(s, p as int) == i
                    },
                forall|i: int, j: int|
                    #[trigger] matching(code(s.take(pos as int)), i, j) ==> out@[i]
                        == Instruction::JumpIfZero((j + 1) as usize) && out@[j]
                        == Instruction::JumpIfNonZero((i + 1) as usize),
        {
            let ghost cp = code(s.take(pos as int));
            let ghost n = out@.len() as int;
            proof {
                lemma_code_push(s, pos as int);
            }
            let ghost cq = code(s.take(pos + 1));
            if ch == '[' {
                proof {
                    assert(cq == cp.push('['));
                    lemma_level_step(cq, n);
                    assert forall|k: int|
                        #![trigger level(cq, k)]
                        #![trigger level(cp, k)]
                        0 <= k <= n implies level(cq, k) == level(cp, k) by {
                        lemma_level_push(cp, '[', k);
                    }
                }
                opens.push((out.len(), pos));
                out.push(Instruction::JumpIfZero(0));
                proof {
                    assert forall|i: int, j: int| #[trigger] matching(cq, i, j) implies out@[i]
                        == Instruction::JumpIfZero((j + 1) as usize) && out@[j]
                        == Instruction::JumpIfNonZero((i + 1) as usize) by {
                        assert(j < n);
                        assert(matching(cp, i, j));
                    }
                }
            } else if ch == ']' {
                proof {
                    assert(cq == cp.push(']'));
                    lemma_level_step(cq, n);
                    assert forall|k: int|
                        #![trigger level(cq, k)]
                        #![trigger level(cp, k)]
                        0 <= k <= n implies level(cq, k) == level(cp, k) by {
                        lemma_level_push(cp, ']', k);
                    }
                }
                if opens.len() == 0 {
                    proof {
                        let c = code(s);
                        lemma_code_prefix(s, pos + 1, s.len() as int);
                        assert(s.take(s.len() as int) =~= s);
                        assert forall|k: int|
                            #![trigger level(c, k)]
                            #![trigger level(cq, k)]
                            0 <= k <= n + 1 implies level(c, k) == level(cq, k) by {
                            lemma_level_prefix(c, cq, k);
                        }
                        assert(c[n] == cq[n]);
                        assert(unmatched_close(c, n));
                        assert(!never_negative(c)) by {
                            assert(level(c, n + 1) < 0);
                        }
                    }
                    return LexResult::Failure(LexError::UnmatchedClose { position: pos });
                }
                let top = opens.pop().unwrap();
                let open_index = top.0;
                out.push(Instruction::JumpIfNonZero(open_index + 1));
                let next = out.len();
                out.set(open_index, Instruction::JumpIfZero(next));
                proof {
                    let t = opens@.len() as int;
                    let i = open_index as int;
                    assert(matching(cq, i, n)) by {
                        assert forall|k: int| i < k <= n implies #[trigger] level(cq, k) > level(
                            cq,
                            i,
                        ) by {
                            assert(level(cp, k) > t);
                        }
                    }
                    assert forall|i2: int, j: int| #[trigger] matching(cq, i2, j) implies out@[i2]
                        == Instruction::JumpIfZero((j + 1) as usize) && out@[j]
                        == Instruction::JumpIfNonZero((i2 + 1) as usize) by {
                        if j == n {
                            if i2 < i {
                                assert(level(cq, i) > level(cq, i2));
                            } else if i2 > i {
                                assert(level(cp, i2) > t);
                            }
                        } else {
                            assert(matching(cp, i2, j));
                            if i2 == i {
                                assert(level(cp, j + 1) > t);
                            }
                        }
                    }
                    assert forall|k: int| 0 <= k < out@.len() implies #[trigger] out@[k].symbol()
                        == cq[k] by {
                        if k < n && k != i {
                            assert(cq[k] == cp[k]);
                        }
                    }
                    assert forall|k: int| 0 <= k <= cq.len() implies #[trigger] level(cq, k)
                        >= 0 by {
                        if k <= n {
                            assert(level(cp, k) >= 0);
                        }
                    }
                }
            } else {
                let simple = if ch == '>' {
                    Some(Instruction::MoveRight)
                } else if ch == '<' {
                    Some(Instruction::MoveLeft)
                } else if ch == '+' {
                    Some(Instruction::Increment)
                } else if ch == '-' {
                    Some(Instruction::Decrement)
                } else if ch == '.' {
                    Some(Instruction::Output)
                } else if ch == ',' {
                    Some(Instruction::Input)
                } else {
                    None
                };
                if let Some(ins) = simple {
                    out.push(ins);
                    proof {
                        assert(cq == cp.push(ch));
                        lemma_level_step(cq, n);
                        assert forall|k: int|
                            #![trigger level(cq, k)]
                            #![trigger level(cp, k)]
                            0 <= k <= n implies level(cq, k) == level(cp, k) by {
                            lemma_level_push(cp, ch, k);
                        }
                        assert forall|i: int, j: int| #[trigger] matching(cq, i, j) implies out@[i]
                            == Instruction::JumpIfZero((j + 1) as usize) && out@[j]
                            == Instruction::JumpIfNonZero((i + 1) as usize) by {
                            assert(j < n);
                            assert(matching(cp, i, j));
                        }
                    }
                }
            }
            pos = pos + 1;
        }
        let ghost c = code(s);
        proof {
            assert(s.take(pos as int) =~= s);
        }
        if opens.len() > 0 {
            let first = opens[0];
            proof {
                let i0 = first.0 as int;
                assert(unmatched_open(c, i0));
                assert forall|m: int| 0 <= m < i0 implies !unmatched_open(c, m) by {
                    if unmatched_open(c, m) {
                        assert(level(c, i0) > level(c, m));
                        assert(level(c, m) >= 0);
                    }
                }
            }
            return LexResult::Failure(LexError::UnmatchedOpen { position: first.1 });
        }
        LexResult::Success(out)
    }
}

} // verus!
