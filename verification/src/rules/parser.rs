//! The parser of the rules language.
//!
//! ```text
//! ruleset := "service" NAME "{" block "}"
//! block   := "match" PATTERN "{" (block | allow)* "}"
//! allow   := "allow" IDENT ("," IDENT)* ":" "if" CONDITION ";"
//! ```
//!
//! `NAME` is a run of letters, `_` and `.`; `PATTERN` runs to the next
//! whitespace; `IDENT` is a run of letters and `_`; `CONDITION` runs to the
//! next `;`. Whitespace may stand between any two tokens.

use crate::rules::ast::{
    block_model, AllowModel, AllowStatement, BlockModel, MatchBlock, Ruleset, RulesetModel,
};
use crate::text::{
    char_is_alphabetic, char_is_whitespace, chars_of, is_alphabetic, is_whitespace, string_of, trim,
    trimmed,
};
use vstd::prelude::*;

verus! {

/// The first position at or after `i` that does not hold whitespace.
pub open spec fn skip_whitespace(s: Seq<char>, i: int) -> int
    decreases s.len() - i,
{
    if 0 <= i < s.len() && is_whitespace(s[i]) {
        skip_whitespace(s, i + 1)
    } else {
        i
    }
}

/// The first position at or after `i` that holds whitespace, or the end.
pub open spec fn pattern_end(s: Seq<char>, i: int) -> int
    decreases s.len() - i,
{
    if 0 <= i < s.len() && !is_whitespace(s[i]) {
        pattern_end(s, i + 1)
    } else {
        i
    }
}

/// Whether `c` may stand in an identifier.
pub open spec fn is_ident_char(c: char) -> bool {
    is_alphabetic(c) || c == '_'
}

/// Whether `c` may stand in a service name.
pub open spec fn is_name_char(c: char) -> bool {
    is_alphabetic(c) || c == '_' || c == '.'
}

/// The first position at or after `i` that does not hold an identifier
/// character.
pub open spec fn ident_end(s: Seq<char>, i: int) -> int
    decreases s.len() - i,
{
    if 0 <= i < s.len() && is_ident_char(s[i]) {
        ident_end(s, i + 1)
    } else {
        i
    }
}

/// The first position at or after `i` that does not hold a character of a
/// service name.
pub open spec fn name_end(s: Seq<char>, i: int) -> int
    decreases s.len() - i,
{
    if 0 <= i < s.len() && is_name_char(s[i]) {
        name_end(s, i + 1)
    } else {
        i
    }
}

/// The first position at or after `i` that holds `c`, or the end.
pub open spec fn find_char(s: Seq<char>, i: int, c: char) -> int
    decreases s.len() - i,
{
    if 0 <= i < s.len() && s[i] != c {
        find_char(s, i + 1, c)
    } else {
        i
    }
}

/// Whether `lit` stands in `s` at `i`.
pub open spec fn looks_at(s: Seq<char>, i: int, lit: Seq<char>) -> bool {
    0 <= i && i + lit.len() <= s.len() && s.subrange(i, i + lit.len()) == lit
}

/// The message for a character that is not the expected one; `None` stands
/// for the end of the input.
pub open spec fn expected_message(expected: char, found: Option<char>) -> Seq<char> {
    "Expected '"@ + seq![expected] + "', found "@ + match found {
        Some(c) => seq!['\'', c, '\''],
        None => "EOF"@,
    }
}

/// Reads `lit` from its position `j` on at `i`: the position behind it, or
/// the message for the first character that differs.
pub open spec fn expect_from(s: Seq<char>, i: int, lit: Seq<char>, j: int) -> Result<
    int,
    Seq<char>,
>
    decreases lit.len() - j,
{
    if j < 0 || j >= lit.len() {
        Ok(i)
    } else if i < 0 || i >= s.len() {
        Err(expected_message(lit[j], None))
    } else if s[i] != lit[j] {
        Err(expected_message(lit[j], Some(s[i])))
    } else {
        expect_from(s, i + 1, lit, j + 1)
    }
}

/// Reads `lit` at `i`.
pub open spec fn expect_at(s: Seq<char>, i: int, lit: Seq<char>) -> Result<int, Seq<char>> {
    expect_from(s, i, lit, 0)
}

/// A literal that was read ends as many characters later as it is long.
pub proof fn lemma_expect_from(s: Seq<char>, i: int, lit: Seq<char>, j: int)
    requires
        0 <= i <= s.len(),
        0 <= j <= lit.len(),
    ensures
        expect_from(s, i, lit, j) matches Ok(n) ==> n == i + lit.len() - j && n <= s.len(),
    decreases lit.len() - j,
{
    if j < lit.len() && i < s.len() && s[i] == lit[j] {
        lemma_expect_from(s, i + 1, lit, j + 1);
    }
}

/// A literal that stands at `i` is read without a complaint.
pub proof fn lemma_looks_at_expect(s: Seq<char>, i: int, lit: Seq<char>)
    requires
        looks_at(s, i, lit),
    ensures
        expect_at(s, i, lit) == Ok::<int, Seq<char>>(i + lit.len()),
{
    lemma_looks_at_expect_from(s, i, lit, 0);
}

proof fn lemma_looks_at_expect_from(s: Seq<char>, i: int, lit: Seq<char>, j: int)
    requires
        looks_at(s, i, lit),
        0 <= j <= lit.len(),
    ensures
        expect_from(s, i + j, lit, j) == Ok::<int, Seq<char>>(i + lit.len()),
    decreases lit.len() - j,
{
    if j < lit.len() {
        assert(s.subrange(i, i + lit.len())[j] == lit[j]);
        lemma_looks_at_expect_from(s, i, lit, j + 1);
    }
}

/// Reads the operations of an allow statement from `i` on, behind those in
/// `acc`: identifiers with commas between them.
pub open spec fn parse_operations(s: Seq<char>, i: int, acc: Seq<Seq<char>>) -> Result<
    (Seq<Seq<char>>, int),
    Seq<char>,
>
    decreases s.len() - i,
{
    if i < 0 || i > s.len() {
        Err("Expected identifier"@)
    } else {
        let e = ident_end(s, i);
        if e <= i {
            Err("Expected identifier"@)
        } else {
            let ops = acc.push(s.subrange(i, e));
            let w = skip_whitespace(s, e);
            if looks_at(s, w, ","@) {
                let next = skip_whitespace(s, w + 1);
                if next <= i || next > s.len() {
                    Err("Expected identifier"@)
                } else {
                    parse_operations(s, next, ops)
                }
            } else {
                Ok((ops, w))
            }
        }
    }
}

/// Reads an allow statement at `i`.
pub open spec fn parse_allow(s: Seq<char>, i: int) -> Result<(AllowModel, int), Seq<char>> {
    match expect_at(s, skip_whitespace(s, i), "allow"@) {
        Err(e) => Err(e),
        Ok(i1) => match parse_operations(s, skip_whitespace(s, i1), Seq::empty()) {
            Err(e) => Err(e),
            Ok((operations, i2)) => match expect_at(s, i2, ":"@) {
                Err(e) => Err(e),
                Ok(i3) => match expect_at(s, skip_whitespace(s, i3), "if"@) {
                    Err(e) => Err(e),
                    Ok(i4) => {
                        let start = skip_whitespace(s, i4);
                        let end = find_char(s, start, ';');
                        match expect_at(s, end, ";"@) {
                            Err(e) => Err(e),
                            Ok(i5) => Ok(
                                (
                                    AllowModel {
                                        operations,
                                        condition: trimmed(s.subrange(start, end)),
                                    },
                                    i5,
                                ),
                            ),
                        }
                    },
                },
            },
        },
    }
}

/// Reads a match block at `i`.
pub open spec fn parse_block(s: Seq<char>, i: int) -> Result<(BlockModel, int), Seq<char>>
    decreases s.len() - i, 1int,
{
    if i < 0 || i > s.len() {
        Err("Unexpected token in match block"@)
    } else {
        match expect_at(s, skip_whitespace(s, i), "match"@) {
            Err(e) => Err(e),
            Ok(i1) => {
                let start = skip_whitespace(s, i1);
                let end = pattern_end(s, start);
                match expect_at(s, skip_whitespace(s, end), "{"@) {
                    Err(e) => Err(e),
                    Ok(i2) => if i2 <= i || i2 > s.len() {
                        Err("Unexpected token in match block"@)
                    } else {
                        parse_items(s, i2, s.subrange(start, end), Seq::empty(), Seq::empty())
                    },
                }
            },
        }
    }
}

/// Reads what stands inside a match block from `i` on, behind the blocks
/// and allow statements that were read already, up to the closing brace.
pub open spec fn parse_items(
    s: Seq<char>,
    i: int,
    pattern: Seq<char>,
    children: Seq<BlockModel>,
    allows: Seq<AllowModel>,
) -> Result<(BlockModel, int), Seq<char>>
    decreases s.len() - i, 2int,
{
    let w = skip_whitespace(s, i);
    if i < 0 || w < i || w > s.len() {
        Err("Unexpected token in match block"@)
    } else if looks_at(s, w, "match"@) {
        match parse_block(s, w) {
            Err(e) => Err(e),
            Ok((child, next)) => if next <= i || next > s.len() {
                Err("Unexpected token in match block"@)
            } else {
                parse_items(s, next, pattern, children.push(child), allows)
            },
        }
    } else if looks_at(s, w, "allow"@) {
        match parse_allow(s, w) {
            Err(e) => Err(e),
            Ok((allow, next)) => if next <= i || next > s.len() {
                Err("Unexpected token in match block"@)
            } else {
                parse_items(s, next, pattern, children, allows.push(allow))
            },
        }
    } else if looks_at(s, w, "}"@) {
        Ok((BlockModel { pattern, children, allows }, w + 1))
    } else {
        Err("Unexpected token in match block"@)
    }
}

/// Reads a ruleset from the start of `s`. What follows the closing brace is
/// not looked at.
pub open spec fn parse_ruleset(s: Seq<char>) -> Result<RulesetModel, Seq<char>> {
    parse_ruleset_at(s, 0)
}

/// Reads a ruleset at `i`.
pub open spec fn parse_ruleset_at(s: Seq<char>, i: int) -> Result<RulesetModel, Seq<char>> {
    match expect_at(s, skip_whitespace(s, i), "service"@) {
        Err(e) => Err(e),
        Ok(i1) => {
            let start = skip_whitespace(s, i1);
            let end = name_end(s, start);
            if end <= start {
                Err("Expected identifier"@)
            } else {
                match expect_at(s, skip_whitespace(s, end), "{"@) {
                    Err(e) => Err(e),
                    Ok(i2) => match parse_block(s, i2) {
                        Err(e) => Err(e),
                        Ok((block, i3)) => match expect_at(s, skip_whitespace(s, i3), "}"@) {
                            Err(e) => Err(e),
                            Ok(_) => Ok(
                                RulesetModel { service_name: s.subrange(start, end), block },
                            ),
                        },
                    },
                }
            }
        },
    }
}

/// The message for a character that is not the expected one.
fn expected_found(expected: char, found: Option<char>) -> (r: String)
    ensures
        r@ == expected_message(expected, found),
{
    let mut out = chars_of("Expected '");
    out.push(expected);
    let mut middle = chars_of("', found ");
    out.append(&mut middle);
    match found {
        Some(c) => {
            out.push('\'');
            out.push(c);
            out.push('\'');
            assert(out@ =~= expected_message(expected, found));
        },
        None => {
            let mut end = chars_of("EOF");
            out.append(&mut end);
            assert(out@ =~= expected_message(expected, found));
        },
    }
    string_of(out.as_slice())
}

/// A parser over the text of a ruleset.
pub struct RulesParser {
    chars: Vec<char>,
    pos: usize,
}

impl RulesParser {
    /// The text that is parsed.
    pub closed spec fn text(&self) -> Seq<char> {
        self.chars@
    }

    /// The position of the next character to be read.
    pub closed spec fn position(&self) -> int {
        self.pos as int
    }

    /// The parser's invariant: its position lies within the text.
    pub closed spec fn wf(&self) -> bool {
        self.pos <= self.chars@.len()
    }

    /// A parser at the start of `input`.
    pub fn new(input: &str) -> (r: Self)
        ensures
            r.wf(),
            r.text() == input@,
            r.position() == 0,
    {
        RulesParser { chars: chars_of(input), pos: 0 }
    }

    /// Passes over whitespace.
    fn consume_whitespace(&mut self)
        requires
            old(self).wf(),
        ensures
            final(self).wf(),
            final(self).text() == old(self).text(),
            final(self).position() == skip_whitespace(old(self).text(), old(self).position()),
            final(self).position() >= old(self).position(),
    {
        while self.pos < self.chars.len() && char_is_whitespace(self.chars[self.pos])
            invariant
                self.pos <= self.chars@.len(),
                self.chars@ == old(self).chars@,
                self.pos >= old(self).pos,
                skip_whitespace(self.chars@, old(self).pos as int) == skip_whitespace(
                    self.chars@,
                    self.pos as int,
                ),
            decreases self.chars@.len() - self.pos,
        {
            self.pos = self.pos + 1;
        }
    }

    /// Whether `lit` stands at the parser's position. Nothing is consumed.
    fn check(&self, lit: &str) -> (r: bool)
        requires
            self.wf(),
        ensures
            r == looks_at(self.text(), self.position(), lit@),
    {
        let l = chars_of(lit);
        if l.len() > self.chars.len() - self.pos {
            return false;
        }
        let ghost part = self.chars@.subrange(self.pos as int, self.pos + l.len());
        let mut j: usize = 0;
        while j < l.len()
            invariant
                j <= l.len(),
                self.pos + l.len() <= self.chars.len(),
                l@ == lit@,
                part == self.chars@.subrange(self.pos as int, self.pos + l.len()),
                forall|k: int| 0 <= k < j ==> part[k] == l@[k],
            decreases l.len() - j,
        {
            if self.chars[self.pos + j] != l[j] {
                assert(part[j as int] != l@[j as int]);
                return false;
            }
            j = j + 1;
        }
        assert(part =~= l@);
        true
    }

    /// Reads `lit`, or fails with the message for the first character that
    /// differs.
    fn expect(&mut self, lit: &str) -> (r: Result<(), String>)
        requires
            old(self).wf(),
        ensures
            final(self).wf(),
            final(self).text() == old(self).text(),
            match expect_at(old(self).text(), old(self).position(), lit@) {
                Ok(n) => r is Ok && final(self).position() == n && n == old(self).position()
                    + lit@.len(),
                Err(m) => r matches Err(e) && e@ == m,
            },
    {
        let l = chars_of(lit);
        let ghost start = self.pos as int;
        let mut j: usize = 0;
        proof {
            lemma_expect_from(self.chars@, start, l@, 0);
        }
        while j < l.len()
            invariant
                j <= l.len(),
                self.pos <= self.chars@.len(),
                self.pos == start + j,
                self.chars@ == old(self).chars@,
                start == old(self).pos,
                l@ == lit@,
                expect_from(self.chars@, start, l@, 0) == expect_from(
                    self.chars@,
                    self.pos as int,
                    l@,
                    j as int,
                ),
            decreases l.len() - j,
        {
            if self.pos >= self.chars.len() {
                return Err(expected_found(l[j], None));
            }
            let c = self.chars[self.pos];
            if c != l[j] {
                return Err(expected_found(l[j], Some(c)));
            }
            self.pos = self.pos + 1;
            j = j + 1;
        }
        Ok(())
    }

    /// Reads a path pattern: what stands before the next whitespace.
    fn parse_path(&mut self) -> (r: Result<String, String>)
        requires
            old(self).wf(),
        ensures
            final(self).wf(),
            final(self).text() == old(self).text(),
            final(self).position() == pattern_end(old(self).text(), old(self).position()),
            final(self).position() >= old(self).position(),
            r matches Ok(p) && p@ == old(self).text().subrange(
                old(self).position(),
                final(self).position(),
            ),
    {
        let start = self.pos;
        while self.pos < self.chars.len() && !char_is_whitespace(self.chars[self.pos])
            invariant
                start <= self.pos <= self.chars@.len(),
                self.chars@ == old(self).chars@,
                start == old(self).pos,
                pattern_end(self.chars@, start as int) == pattern_end(self.chars@, self.pos as int),
            decreases self.chars@.len() - self.pos,
        {
            self.pos = self.pos + 1;
        }
        Ok(self.copy_range(start, self.pos))
    }

    /// The text from `from` up to `to`.
    fn copy_range(&self, from: usize, to: usize) -> (r: String)
        requires
            from <= to <= self.text().len(),
        ensures
            r@ == self.text().subrange(from as int, to as int),
    {
        let mut out: Vec<char> = Vec::new();
        let mut i: usize = from;
        while i < to
            invariant
                from <= i <= to <= self.chars@.len(),
                out@ == self.chars@.subrange(from as int, i as int),
            decreases to - i,
        {
            out.push(self.chars[i]);
            assert(self.chars@.subrange(from as int, i + 1) =~= self.chars@.subrange(
                from as int,
                i as int,
            ).push(self.chars@[i as int]));
            i = i + 1;
        }
        string_of(out.as_slice())
    }

    /// Reads an identifier: a run of letters and `_` that is not empty.
    fn parse_identifier(&mut self) -> (r: Result<String, String>)
        requires
            old(self).wf(),
        ensures
            final(self).wf(),
            final(self).text() == old(self).text(),
            final(self).position() == ident_end(old(self).text(), old(self).position()),
            match r {
                Ok(name) => final(self).position() > old(self).position() && name@ == old(self).text().subrange(old(self).position(), final(self).position()),
                Err(e) => final(self).position() == old(self).position() && e@
                    == "Expected identifier"@,
            },
    {
        let start = self.pos;
        while self.pos < self.chars.len() && (char_is_alphabetic(self.chars[self.pos])
            || self.chars[self.pos] == '_')
            invariant
                start <= self.pos <= self.chars@.len(),
                self.chars@ == old(self).chars@,
                start == old(self).pos,
                ident_end(self.chars@, start as int) == ident_end(self.chars@, self.pos as int),
            decreases self.chars@.len() - self.pos,
        {
            self.pos = self.pos + 1;
        }
        if self.pos == start {
            return Err("Expected identifier".to_owned());
        }
        Ok(self.copy_range(start, self.pos))
    }

    /// Reads a service name: a run of letters, `_` and `.` that is not
    /// empty.
    fn parse_name(&mut self) -> (r: Result<String, String>)
        requires
            old(self).wf(),
        ensures
            final(self).wf(),
            final(self).text() == old(self).text(),
            final(self).position() == name_end(old(self).text(), old(self).position()),
            match r {
                Ok(name) => final(self).position() > old(self).position() && name@ == old(self).text().subrange(old(self).position(), final(self).position()),
                Err(e) => final(self).position() == old(self).position() && e@
                    == "Expected identifier"@,
            },
    {
        let start = self.pos;
        while self.pos < self.chars.len() && (char_is_alphabetic(self.chars[self.pos])
            || self.chars[self.pos] == '_' || self.chars[self.pos] == '.')
            invariant
                start <= self.pos <= self.chars@.len(),
                self.chars@ == old(self).chars@,
                start == old(self).pos,
                name_end(self.chars@, start as int) == name_end(self.chars@, self.pos as int),
            decreases self.chars@.len() - self.pos,
        {
            self.pos = self.pos + 1;
        }
        if self.pos == start {
            return Err("Expected identifier".to_owned());
        }
        Ok(self.copy_range(start, self.pos))
    }

    /// Reads up to the next `delimiter`, which is left in place.
    fn parse_until(&mut self, delimiter: char) -> (r: Result<String, String>)
        requires
            old(self).wf(),
        ensures
            final(self).wf(),
            final(self).text() == old(self).text(),
            final(self).position() == find_char(
                old(self).text(),
                old(self).position(),
                delimiter,
            ),
            final(self).position() >= old(self).position(),
            r matches Ok(p) && p@ == old(self).text().subrange(
                old(self).position(),
                final(self).position(),
            ),
    {
        let start = self.pos;
        while self.pos < self.chars.len() && self.chars[self.pos] != delimiter
            invariant
                start <= self.pos <= self.chars@.len(),
                self.chars@ == old(self).chars@,
                start == old(self).pos,
                find_char(self.chars@, start as int, delimiter) == find_char(
                    self.chars@,
                    self.pos as int,
                    delimiter,
                ),
            decreases self.chars@.len() - self.pos,
        {
            self.pos = self.pos + 1;
        }
        Ok(self.copy_range(start, self.pos))
    }

    /// Reads the operations of an allow statement: identifiers with commas
    /// between them.
    fn parse_operations(&mut self) -> (r: Result<Vec<String>, String>)
        requires
            old(self).wf(),
        ensures
            final(self).wf(),
            final(self).text() == old(self).text(),
            match parse_operations(old(self).text(), old(self).position(), Seq::empty()) {
                Ok((names, n)) => r matches Ok(ops) && names == Seq::new(
                    ops@.len(),
                    |i: int| ops@[i]@,
                ) && final(self).position() == n && n > old(self).position(),
                Err(m) => r matches Err(e) && e@ == m,
            },
    {
        let ghost s = self.chars@;
        let ghost first = self.pos as int;
        let mut operations: Vec<String> = Vec::new();
        let ghost mut acc: Seq<Seq<char>> = Seq::empty();
        proof {
            reveal_strlit(",");
        }
        loop
            invariant_except_break
                self.pos <= self.chars@.len(),
                self.chars@ == s,
                s == old(self).chars@,
                first == old(self).pos,
                self.pos >= first,
                ","@.len() == 1,
                acc.len() == operations@.len(),
                forall|i: int| 0 <= i < acc.len() ==> acc[i] == #[trigger] operations@[i]@,
                parse_operations(s, first, Seq::empty()) == parse_operations(
                    s,
                    self.pos as int,
                    acc,
                ),
            ensures
                self.pos <= self.chars@.len(),
                self.chars@ == s,
                self.pos > first,
                acc.len() == operations@.len(),
                forall|i: int| 0 <= i < acc.len() ==> acc[i] == #[trigger] operations@[i]@,
                parse_operations(s, first, Seq::empty()) == Ok::<
                    (Seq<Seq<char>>, int),
                    Seq<char>,
                >((acc, self.pos as int)),
            decreases self.chars@.len() - self.pos,
        {
            let op = match self.parse_identifier() {
                Ok(op) => op,
                Err(e) => {
                    return Err(e);
                },
            };
            proof {
                acc = acc.push(op@);
            }
            operations.push(op);
            self.consume_whitespace();
            if self.check(",") {
                proof {
                    lemma_expect_from(s, self.pos as int, ","@, 0);
                    lemma_looks_at_expect(s, self.pos as int, ","@);
                }
                match self.expect(",") {
                    Ok(_) => {},
                    Err(e) => {
                        return Err(e);
                    },
                }
                self.consume_whitespace();
            } else {
                break ;
            }
        }
        assert(acc =~= Seq::new(operations@.len(), |i: int| operations@[i]@));
        Ok(operations)
    }

    /// Reads an allow statement.
    fn parse_allow(&mut self) -> (r: Result<AllowStatement, String>)
        requires
            old(self).wf(),
        ensures
            final(self).wf(),
            final(self).text() == old(self).text(),
            match parse_allow(old(self).text(), old(self).position()) {
                Ok((model, n)) => r matches Ok(allow) && allow@ == model && final(self).position()
                    == n && n > old(self).position(),
                Err(m) => r matches Err(e) && e@ == m,
            },
    {
        proof {
            reveal_strlit("allow");
            reveal_strlit(":");
            reveal_strlit("if");
            reveal_strlit(";");
        }
        self.consume_whitespace();
        match self.expect("allow") {
            Ok(_) => {},
            Err(e) => {
                return Err(e);
            },
        }
        self.consume_whitespace();
        let operations = match self.parse_operations() {
            Ok(ops) => ops,
            Err(e) => {
                return Err(e);
            },
        };
        match self.expect(":") {
            Ok(_) => {},
            Err(e) => {
                return Err(e);
            },
        }
        self.consume_whitespace();
        match self.expect("if") {
            Ok(_) => {},
            Err(e) => {
                return Err(e);
            },
        }
        self.consume_whitespace();
        let raw = match self.parse_until(';') {
            Ok(raw) => raw,
            Err(e) => {
                return Err(e);
            },
        };
        match self.expect(";") {
            Ok(_) => {},
            Err(e) => {
                return Err(e);
            },
        }
        let condition = string_of(trim(&chars_of(raw.as_str())).as_slice());
        Ok(AllowStatement { operations, condition })
    }

    /// Reads a match block with everything inside it.
    fn parse_match_block(&mut self) -> (r: Result<MatchBlock, String>)
        requires
            old(self).wf(),
        ensures
            final(self).wf(),
            final(self).text() == old(self).text(),
            match parse_block(old(self).text(), old(self).position()) {
                Ok((model, n)) => r matches Ok(block) && block@ == model && final(self).position()
                    == n && n > old(self).position(),
                Err(m) => r matches Err(e) && e@ == m,
            },
        decreases old(self).text().len() - old(self).position(), 1int,
    {
        proof {
            reveal_strlit("match");
            reveal_strlit("{");
        }
        self.consume_whitespace();
        match self.expect("match") {
            Ok(_) => {},
            Err(e) => {
                return Err(e);
            },
        }
        self.consume_whitespace();
        let pattern = match self.parse_path() {
            Ok(p) => p,
            Err(e) => {
                return Err(e);
            },
        };
        self.consume_whitespace();
        match self.expect("{") {
            Ok(_) => {},
            Err(e) => {
                return Err(e);
            },
        }
        self.parse_items(pattern)
    }

    /// Reads what stands inside a match block, up to its closing brace.
    fn parse_items(&mut self, pattern: String) -> (r: Result<MatchBlock, String>)
        requires
            old(self).wf(),
        ensures
            final(self).wf(),
            final(self).text() == old(self).text(),
            match parse_items(
                old(self).text(),
                old(self).position(),
                pattern@,
                Seq::empty(),
                Seq::empty(),
            ) {
                Ok((model, n)) => r matches Ok(block) && block@ == model && final(self).position()
                    == n && n > old(self).position(),
                Err(m) => r matches Err(e) && e@ == m,
            },
        decreases old(self).text().len() - old(self).position(), 2int,
    {
        let ghost s = self.chars@;
        let ghost inside = self.pos as int;
        let mut sub_matches: Vec<MatchBlock> = Vec::new();
        let mut allow_statements: Vec<AllowStatement> = Vec::new();
        let ghost mut children: Seq<BlockModel> = Seq::empty();
        let ghost mut allows: Seq<AllowModel> = Seq::empty();
        proof {
            reveal_strlit("}");
        }
        loop
            invariant_except_break
                self.pos <= self.chars@.len(),
                self.chars@ == s,
                s == old(self).chars@,
                inside == old(self).pos,
                self.pos >= inside,
                "}"@.len() == 1,
                children.len() == sub_matches@.len(),
                forall|i: int|
                    0 <= i < children.len() ==> children[i] == block_model(
                        #[trigger] sub_matches@[i],
                    ),
                allows.len() == allow_statements@.len(),
                forall|i: int| 0 <= i < allows.len() ==> allows[i] == #[trigger] allow_statements@[i]@,
                parse_items(s, inside, pattern@, Seq::empty(), Seq::empty()) == parse_items(
                    s,
                    self.pos as int,
                    pattern@,
                    children,
                    allows,
                ),
            ensures
                self.pos <= self.chars@.len(),
                self.chars@ == s,
                self.pos > inside,
                children.len() == sub_matches@.len(),
                forall|i: int|
                    0 <= i < children.len() ==> children[i] == block_model(
                        #[trigger] sub_matches@[i],
                    ),
                allows.len() == allow_statements@.len(),
                forall|i: int| 0 <= i < allows.len() ==> allows[i] == #[trigger] allow_statements@[i]@,
                parse_items(s, inside, pattern@, Seq::empty(), Seq::empty()) == Ok::<
                    (BlockModel, int),
                    Seq<char>,
                >((BlockModel { pattern: pattern@, children, allows }, self.pos as int)),
            decreases self.chars@.len() - self.pos,
        {
            self.consume_whitespace();
            if self.check("match") {
                let child = match self.parse_match_block() {
                    Ok(child) => child,
                    Err(e) => {
                        return Err(e);
                    },
                };
                proof {
                    children = children.push(child@);
                }
                sub_matches.push(child);
            } else if self.check("allow") {
                let allow = match self.parse_allow() {
                    Ok(allow) => allow,
                    Err(e) => {
                        return Err(e);
                    },
                };
                proof {
                    allows = allows.push(allow@);
                }
                allow_statements.push(allow);
            } else if self.check("}") {
                proof {
                    lemma_looks_at_expect(s, self.pos as int, "}"@);
                }
                match self.expect("}") {
                    Ok(_) => {},
                    Err(e) => {
                        return Err(e);
                    },
                }
                break ;
            } else {
                return Err("Unexpected token in match block".to_owned());
            }
        }
        let block = MatchBlock { path_pattern: pattern, sub_matches, allow_statements };
        proof {
            block.lemma_view();
            assert(block@.children =~= children);
            assert(block@.allows =~= allows);
        }
        Ok(block)
    }

    /// Reads a ruleset: `service <name> { match ... }`. What follows the
    /// closing brace is not looked at.
    pub fn parse(&mut self) -> (r: Result<Ruleset, String>)
        requires
            old(self).wf(),
        ensures
            final(self).wf(),
            final(self).text() == old(self).text(),
            match parse_ruleset_at(old(self).text(), old(self).position()) {
                Ok(model) => r matches Ok(ruleset) && ruleset@ == model,
                Err(m) => r matches Err(e) && e@ == m,
            },
    {
        proof {
            reveal_strlit("service");
            reveal_strlit("{");
            reveal_strlit("}");
        }
        self.consume_whitespace();
        match self.expect("service") {
            Ok(_) => {},
            Err(e) => {
                return Err(e);
            },
        }
        self.consume_whitespace();
        let service_name = match self.parse_name() {
            Ok(name) => name,
            Err(e) => {
                return Err(e);
            },
        };
        self.consume_whitespace();
        match self.expect("{") {
            Ok(_) => {},
            Err(e) => {
                return Err(e);
            },
        }
        let match_block = match self.parse_match_block() {
            Ok(block) => block,
            Err(e) => {
                return Err(e);
            },
        };
        self.consume_whitespace();
        match self.expect("}") {
            Ok(_) => {},
            Err(e) => {
                return Err(e);
            },
        }
        Ok(Ruleset { service_name, match_block })
    }
}

} // verus!
