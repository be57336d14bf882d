//! The rules language as a tree, and its evaluation against a path.

use crate::text::{chars_eq, chars_of, str_eq, string_of, trim, trimmed};
use std::collections::HashMap;
use vstd::prelude::*;

verus! {

/// `allow <operations>: if <condition>;`
#[derive(Debug)]
pub struct AllowStatement {
    pub operations: Vec<String>,
    pub condition: String,
}

/// `match <pattern> { ... }`: a path pattern with the blocks and the allow
/// statements inside it.
#[derive(Debug)]
pub struct MatchBlock {
    pub path_pattern: String,
    pub sub_matches: Vec<MatchBlock>,
    pub allow_statements: Vec<AllowStatement>,
}

/// `service <name> { match ... }`
#[derive(Debug)]
pub struct Ruleset {
    pub service_name: String,
    pub match_block: MatchBlock,
}

/// An allow statement as plain values.
pub struct AllowModel {
    pub operations: Seq<Seq<char>>,
    pub condition: Seq<char>,
}

/// A match block as plain values.
pub struct BlockModel {
    pub pattern: Seq<char>,
    pub children: Seq<BlockModel>,
    pub allows: Seq<AllowModel>,
}

/// A ruleset as plain values.
pub struct RulesetModel {
    pub service_name: Seq<char>,
    pub block: BlockModel,
}

impl View for AllowStatement {
    type V = AllowModel;

    open spec fn view(&self) -> AllowModel {
        AllowModel {
            operations: Seq::new(self.operations@.len(), |i: int| self.operations@[i]@),
            condition: self.condition@,
        }
    }
}

/// The plain values of the blocks in `blocks`, the first `n` of them.
pub open spec fn block_models(blocks: Seq<MatchBlock>, n: nat) -> Seq<BlockModel>
    decreases blocks, n,
{
    if n == 0 || n > blocks.len() {
        Seq::empty()
    } else {
        block_models(blocks, (n - 1) as nat).push(block_model(blocks[n - 1]))
    }
}

/// A block as plain values.
pub open spec fn block_model(block: MatchBlock) -> BlockModel
    decreases block,
{
    BlockModel {
        pattern: block.path_pattern@,
        children: block_models(block.sub_matches@, block.sub_matches@.len()),
        allows: Seq::new(
            block.allow_statements@.len(),
            |i: int| block.allow_statements@[i]@,
        ),
    }
}

/// `block_models` gives one model for each of the first `n` blocks.
pub proof fn lemma_block_models(blocks: Seq<MatchBlock>, n: nat)
    requires
        n <= blocks.len(),
    ensures
        block_models(blocks, n).len() == n,
        forall|i: int| 0 <= i < n ==> #[trigger] block_models(blocks, n)[i] == block_model(blocks[i]),
    decreases n,
{
    if n > 0 {
        lemma_block_models(blocks, (n - 1) as nat);
    }
}

impl View for MatchBlock {
    type V = BlockModel;

    open spec fn view(&self) -> BlockModel {
        block_model(*self)
    }
}

impl View for Ruleset {
    type V = RulesetModel;

    open spec fn view(&self) -> RulesetModel {
        RulesetModel { service_name: self.service_name@, block: self.match_block@ }
    }
}

/// The first position at or after `i` that does not hold a slash.
pub open spec fn skip_slashes(s: Seq<char>, i: int) -> int
    decreases s.len() - i,
{
    if 0 <= i < s.len() && s[i] == '/' {
        skip_slashes(s, i + 1)
    } else {
        i
    }
}

/// The first position at or after `i` that holds a slash, or the end.
pub open spec fn skip_segment(s: Seq<char>, i: int) -> int
    decreases s.len() - i,
{
    if 0 <= i < s.len() && s[i] != '/' {
        skip_segment(s, i + 1)
    } else {
        i
    }
}

/// The number of segments of `s` from `i` on: the runs of characters
/// between slashes, empty runs not counted.
pub open spec fn segment_count(s: Seq<char>, i: int) -> nat
    decreases s.len() - i,
{
    let a = skip_slashes(s, i);
    let b = skip_segment(s, a);
    if 0 <= i <= a < b <= s.len() {
        1 + segment_count(s, b)
    } else {
        0
    }
}

/// `skip_segment` stays within the text and moves on where a segment
/// begins.
pub proof fn lemma_skip_segment(s: Seq<char>, i: int)
    requires
        0 <= i <= s.len(),
    ensures
        i <= skip_segment(s, i) <= s.len(),
        i < s.len() && s[i] != '/' ==> skip_segment(s, i) > i,
    decreases s.len() - i,
{
    if i < s.len() && s[i] != '/' {
        lemma_skip_segment(s, i + 1);
    }
}

/// Whether a pattern segment is a variable: `{name}` or `{name=**}`.
pub open spec fn is_variable(seg: Seq<char>) -> bool {
    seg.len() > 0 && seg[0] == '{' && seg.last() == '}'
}

/// Whether `=**` stands somewhere in `seg`.
pub open spec fn has_rest_marker(seg: Seq<char>) -> bool {
    exists|i: int|
        0 <= i && i + 3 <= seg.len() && #[trigger] seg[i] == '=' && seg[i + 1] == '*' && seg[i
            + 2] == '*'
}

/// How a pattern fares against a path.
pub enum PatternOutcome {
    /// A literal segment differs from the path's segment.
    Mismatch,
    /// A `{name=**}` segment takes the whole rest of the path.
    TakesRest,
    /// Every segment of the pattern matched; the path was read up to `at`.
    Consumed { at: int },
}

/// Walks `k` segments of the pattern from `pi` against the segments of the
/// path from `di`: a literal segment must equal the path's segment, a
/// `{name}` matches any one segment, and a `{name=**}` ends the walk.
pub open spec fn match_from(
    pattern: Seq<char>,
    pi: int,
    path: Seq<char>,
    di: int,
    k: nat,
) -> PatternOutcome
    decreases k,
{
    if k == 0 {
        PatternOutcome::Consumed { at: di }
    } else {
        let pa = skip_slashes(pattern, pi);
        let pb = skip_segment(pattern, pa);
        let da = skip_slashes(path, di);
        let db = skip_segment(path, da);
        let p = pattern.subrange(pa, pb);
        let d = path.subrange(da, db);
        if is_variable(p) {
            if has_rest_marker(p) {
                PatternOutcome::TakesRest
            } else {
                match_from(pattern, pb, path, db, (k - 1) as nat)
            }
        } else if p != d {
            PatternOutcome::Mismatch
        } else {
            match_from(pattern, pb, path, db, (k - 1) as nat)
        }
    }
}

/// What is left of `path` once `pattern` has consumed its share, or `None`
/// where the pattern does not match. A pattern without segments leaves the
/// path as it is; a `{name=**}` leaves nothing.
pub open spec fn consume_pattern(pattern: Seq<char>, path: Seq<char>) -> Option<Seq<char>> {
    let n = segment_count(pattern, 0);
    if segment_count(path, 0) < n {
        None
    } else if n == 0 {
        Some(path)
    } else {
        match match_from(pattern, 0, path, 0, n) {
            PatternOutcome::Mismatch => None,
            PatternOutcome::TakesRest => Some(Seq::empty()),
            PatternOutcome::Consumed { at } => Some(path.skip(skip_slashes(path, at))),
        }
    }
}

/// Whether an allow statement permits `operation`: it lists the operation,
/// or `match_all`, and its condition is the literal `true`.
pub open spec fn allow_permits(allow: AllowModel, operation: Seq<char>) -> bool {
    &&& allow.operations.contains(operation) || allow.operations.contains("match_all"@)
    &&& trimmed(allow.condition) == "true"@
}

/// Whether `block` permits `operation` on `path`: its pattern matches a
/// prefix of the path, and either nothing but slashes is left and one of
/// its allow statements permits the operation, or one of its inner blocks
/// permits the operation on what is left.
pub open spec fn block_allows(block: BlockModel, path: Seq<char>, operation: Seq<char>) -> bool
    decreases block,
{
    match consume_pattern(block.pattern, path) {
        None => false,
        Some(rest) => {
            ||| skip_slashes(rest, 0) == rest.len() && exists|i: int|
                0 <= i < block.allows.len() && allow_permits(#[trigger] block.allows[i], operation)
            ||| exists|i: int|
                0 <= i < block.children.len() && block_allows(
                    #[trigger] block.children[i],
                    rest,
                    operation,
                )
        },
    }
}

/// The first position at or after `i` that does not hold a slash.
fn scan_slashes(s: &Vec<char>, i: usize) -> (r: usize)
    requires
        i <= s.len(),
    ensures
        r == skip_slashes(s@, i as int),
        i <= r <= s.len(),
        r < s.len() ==> s@[r as int] != '/',
{
    let mut j = i;
    while j < s.len() && s[j] == '/'
        invariant
            i <= j <= s.len(),
            skip_slashes(s@, i as int) == skip_slashes(s@, j as int),
        decreases s.len() - j,
    {
        j = j + 1;
    }
    j
}

/// The first position at or after `i` that holds a slash, or the end.
fn scan_segment(s: &Vec<char>, i: usize) -> (r: usize)
    requires
        i <= s.len(),
    ensures
        r == skip_segment(s@, i as int),
        i <= r <= s.len(),
        i < s.len() && s@[i as int] != '/' ==> r > i,
{
    let mut j = i;
    while j < s.len() && s[j] != '/'
        invariant
            i <= j <= s.len(),
            skip_segment(s@, i as int) == skip_segment(s@, j as int),
            i < s.len() && s@[i as int] != '/' ==> j > i || j == i,
            j > i || j == i,
        decreases s.len() - j,
    {
        j = j + 1;
    }
    j
}

/// The number of segments of `s`.
fn count_segments(s: &Vec<char>) -> (r: usize)
    ensures
        r == segment_count(s@, 0),
{
    let mut count: usize = 0;
    let mut i: usize = 0;
    loop
        invariant
            i <= s.len(),
            count <= i,
            segment_count(s@, 0) == count + segment_count(s@, i as int),
        decreases s.len() - i,
    {
        let a = scan_slashes(s, i);
        if a >= s.len() {
            proof {
                lemma_skip_segment(s@, a as int);
            }
            return count;
        }
        let b = scan_segment(s, a);
        count = count + 1;
        i = b;
    }
}

/// Whether the segment `s[a..b]` is a variable.
fn segment_is_variable(s: &Vec<char>, a: usize, b: usize) -> (r: bool)
    requires
        a <= b <= s.len(),
    ensures
        r == is_variable(s@.subrange(a as int, b as int)),
{
    a < b && s[a] == '{' && s[b - 1] == '}'
}

/// Whether `=**` stands in the segment `s[a..b]`.
fn segment_has_rest_marker(s: &Vec<char>, a: usize, b: usize) -> (r: bool)
    requires
        a <= b <= s.len(),
    ensures
        r == has_rest_marker(s@.subrange(a as int, b as int)),
{
    let ghost seg = s@.subrange(a as int, b as int);
    if b - a < 3 {
        assert forall|j: int| 0 <= j && j + 3 <= seg.len() implies !(#[trigger] seg[j] == '='
            && seg[j + 1] == '*' && seg[j + 2] == '*') by {}
        return false;
    }
    let mut i: usize = a;
    while b - i >= 3
        invariant
            a <= i,
            i + 2 <= b <= s.len(),
            seg == s@.subrange(a as int, b as int),
            forall|j: int|
                0 <= j < i - a ==> !(#[trigger] seg[j] == '=' && seg[j + 1] == '*' && seg[j + 2]
                    == '*'),
        decreases b - i,
    {
        if s[i] == '=' && s[i + 1] == '*' && s[i + 2] == '*' {
            assert(seg[i - a] == '=' && seg[i - a + 1] == '*' && seg[i - a + 2] == '*');
            return true;
        }
        i = i + 1;
    }
    false
}

/// Whether the segments `p[pa..pb]` and `d[da..db]` are the same.
fn segments_equal(p: &Vec<char>, pa: usize, pb: usize, d: &Vec<char>, da: usize, db: usize) -> (r:
    bool)
    requires
        pa <= pb <= p.len(),
        da <= db <= d.len(),
    ensures
        r == (p@.subrange(pa as int, pb as int) == d@.subrange(da as int, db as int)),
{
    let ghost x = p@.subrange(pa as int, pb as int);
    let ghost y = d@.subrange(da as int, db as int);
    if pb - pa != db - da {
        assert(x.len() != y.len());
        return false;
    }
    let n = pb - pa;
    let mut i: usize = 0;
    while i < n
        invariant
            i <= n,
            n == pb - pa,
            n == db - da,
            pb <= p.len(),
            db <= d.len(),
            x == p@.subrange(pa as int, pb as int),
            y == d@.subrange(da as int, db as int),
            forall|j: int| 0 <= j < i ==> x[j] == y[j],
        decreases n - i,
    {
        if p[pa + i] != d[da + i] {
            assert(x[i as int] != y[i as int]);
            return false;
        }
        i = i + 1;
    }
    assert(x =~= y);
    true
}

/// What is left of `path` once `pattern` has consumed its share.
fn consume_chars(pattern: &Vec<char>, path: &Vec<char>) -> (r: Option<Vec<char>>)
    ensures
        match r {
            Some(rest) => consume_pattern(pattern@, path@) == Some(rest@),
            None => consume_pattern(pattern@, path@) is None,
        },
{
    let n = count_segments(pattern);
    if count_segments(path) < n {
        return None;
    }
    if n == 0 {
        return Some(path.clone());
    }
    let mut pi: usize = 0;
    let mut di: usize = 0;
    let mut k: usize = n;
    while k > 0
        invariant
            pi <= pattern.len(),
            di <= path.len(),
            match_from(pattern@, 0, path@, 0, n as nat) == match_from(
                pattern@,
                pi as int,
                path@,
                di as int,
                k as nat,
            ),
            n == segment_count(pattern@, 0),
            n > 0,
            segment_count(path@, 0) >= n,
        decreases k,
    {
        let pa = scan_slashes(pattern, pi);
        let pb = scan_segment(pattern, pa);
        let da = scan_slashes(path, di);
        let db = scan_segment(path, da);
        if segment_is_variable(pattern, pa, pb) {
            if segment_has_rest_marker(pattern, pa, pb) {
                return Some(Vec::new());
            }
        } else if !segments_equal(pattern, pa, pb, path, da, db) {
            return None;
        }
        pi = pb;
        di = db;
        k = k - 1;
    }
    let start = scan_slashes(path, di);
    let mut rest: Vec<char> = Vec::new();
    let mut i: usize = start;
    while i < path.len()
        invariant
            start <= i <= path.len(),
            rest@ == path@.subrange(start as int, i as int),
        decreases path.len() - i,
    {
        rest.push(path[i]);
        assert(path@.subrange(start as int, i + 1) =~= path@.subrange(start as int, i as int).push(
            path@[i as int],
        ));
        i = i + 1;
    }
    assert(path@.subrange(start as int, path@.len() as int) =~= path@.skip(start as int));
    Some(rest)
}

impl AllowStatement {
    /// Whether the statement permits `operation`.
    pub fn permits(&self, operation: &str) -> (r: bool)
        ensures
            r == allow_permits(self@, operation@),
    {
        let mut listed = false;
        let mut i: usize = 0;
        while i < self.operations.len()
            invariant
                i <= self.operations.len(),
                listed == exists|j: int|
                    0 <= j < i && (#[trigger] self@.operations[j] == operation@
                        || self@.operations[j] == "match_all"@),
            decreases self.operations.len() - i,
        {
            let name = self.operations[i].as_str();
            assert(self@.operations[i as int] == name@);
            if str_eq(name, operation) || str_eq(name, "match_all") {
                listed = true;
            }
            i = i + 1;
        }
        proof {
            let ops = self@.operations;
            if listed {
                let j = choose|j: int|
                    0 <= j < ops.len() && (#[trigger] ops[j] == operation@ || ops[j]
                        == "match_all"@);
                assert(ops.contains(ops[j]));
            } else {
                if ops.contains(operation@) {
                    let j = choose|j: int| 0 <= j < ops.len() && ops[j] == operation@;
                    assert(ops[j] == operation@);
                }
                if ops.contains("match_all"@) {
                    let j = choose|j: int| 0 <= j < ops.len() && ops[j] == "match_all"@;
                    assert(ops[j] == "match_all"@);
                }
            }
        }
        if !listed {
            return false;
        }
        let condition = trim(&chars_of(self.condition.as_str()));
        let literal = chars_of("true");
        chars_eq(condition.as_slice(), literal.as_slice())
    }
}

impl MatchBlock {
    /// The parts of a block's view.
    pub proof fn lemma_view(&self)
        ensures
            self@ == block_model(*self),
            block_model(*self).pattern == self.path_pattern@,
            block_model(*self).children.len() == self.sub_matches@.len(),
            block_model(*self).allows.len() == self.allow_statements@.len(),
            forall|i: int|
                0 <= i < self.sub_matches@.len() ==> #[trigger] block_model(*self).children[i]
                    == block_model(self.sub_matches@[i]),
            forall|i: int|
                0 <= i < self.allow_statements@.len() ==> #[trigger] block_model(*self).allows[i]
                    == self.allow_statements@[i]@,
    {
        lemma_block_models(self.sub_matches@, self.sub_matches@.len());
    }

    /// What is left of `path` once the block's pattern has consumed its
    /// share, or `None` where the pattern does not match.
    pub fn consume_pattern(&self, path: &str) -> (r: Option<String>)
        ensures
            match r {
                Some(rest) => consume_pattern(self@.pattern, path@) == Some(rest@),
                None => consume_pattern(self@.pattern, path@) is None,
            },
    {
        let pattern = chars_of(self.path_pattern.as_str());
        let chars = chars_of(path);
        match consume_chars(&pattern, &chars) {
            Some(rest) => Some(string_of(rest.as_slice())),
            None => None,
        }
    }

    /// Whether this block or a block inside it allows `operation` on
    /// `remaining_path`.
    pub fn matches_recursive(
        &self,
        remaining_path: &str,
        operation: &str,
        context: &HashMap<String, String>,
    ) -> (r: bool)
        ensures
            r == block_allows(self@, remaining_path@, operation@),
    {
        let path = chars_of(remaining_path);
        self.allows_chars(&path, operation)
    }

    /// Whether this block or a block inside it allows `operation` on
    /// `path`.
    pub fn permits(&self, path: &str, operation: &str) -> (r: bool)
        ensures
            r == block_allows(self@, path@, operation@),
    {
        let chars = chars_of(path);
        self.allows_chars(&chars, operation)
    }

    /// Whether this block or a block inside it allows `operation` on `path`.
    fn allows_chars(&self, path: &Vec<char>, operation: &str) -> (r: bool)
        ensures
            r == block_allows(self@, path@, operation@),
        decreases self,
    {
        proof {
            self.lemma_view();
        }
        let ghost model = self@;
        let pattern = chars_of(self.path_pattern.as_str());
        let rest = match consume_chars(&pattern, path) {
            Some(rest) => rest,
            None => {
                return false;
            },
        };
        let exact = scan_slashes(&rest, 0) == rest.len();
        let mut permitted = false;
        if exact {
            let mut i: usize = 0;
            while i < self.allow_statements.len() && !permitted
                invariant
                    i <= self.allow_statements.len(),
                    model == self@,
                    model.allows.len() == self.allow_statements@.len(),
                    forall|j: int|
                        0 <= j < self.allow_statements@.len() ==> #[trigger] model.allows[j]
                            == self.allow_statements@[j]@,
                    !permitted ==> forall|j: int|
                        0 <= j < i ==> !allow_permits(#[trigger] model.allows[j], operation@),
                    permitted ==> exists|j: int|
                        0 <= j < model.allows.len() && allow_permits(
                            #[trigger] model.allows[j],
                            operation@,
                        ),
                decreases self.allow_statements.len() - i,
            {
                if self.allow_statements[i].permits(operation) {
                    assert(allow_permits(model.allows[i as int], operation@));
                    permitted = true;
                }
                i = i + 1;
            }
        }
        if permitted {
            return true;
        }
        let mut inside = false;
        let mut i: usize = 0;
        while i < self.sub_matches.len() && !inside
            invariant
                i <= self.sub_matches.len(),
                model == self@,
                model.children.len() == self.sub_matches@.len(),
                forall|j: int|
                    0 <= j < self.sub_matches@.len() ==> #[trigger] model.children[j]
                        == self.sub_matches@[j]@,
                !inside ==> forall|j: int|
                    0 <= j < i ==> !block_allows(#[trigger] model.children[j], rest@, operation@),
                inside ==> exists|j: int|
                    0 <= j < model.children.len() && block_allows(
                        #[trigger] model.children[j],
                        rest@,
                        operation@,
                    ),
            decreases self.sub_matches.len() - i,
        {
            if self.sub_matches[i].allows_chars(&rest, operation) {
                assert(block_allows(model.children[i as int], rest@, operation@));
                inside = true;
            }
            i = i + 1;
        }
        inside
    }
}

impl Ruleset {
    /// Whether the ruleset allows `operation` on `path`.
    pub fn is_allowed(&self, path: &str, operation: &str, context: &HashMap<String, String>) -> (r:
        bool)
        ensures
            r == block_allows(self@.block, path@, operation@),
    {
        self.match_block.matches_recursive(path, operation, context)
    }
}

} // verus!
