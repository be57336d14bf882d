//! The rules engine: a small language of match blocks and allow statements,
//! and the evaluator that decides whether an operation on a path is allowed.

pub mod ast;
pub mod parser;

use crate::rules::ast::{block_allows, Ruleset, RulesetModel};
use crate::rules::parser::{parse_ruleset, RulesParser};
use std::collections::HashMap;
use vstd::prelude::*;

verus! {

/// Holds the ruleset in force, if one was loaded.
pub struct RulesEngine {
    ruleset: Option<Ruleset>,
}

impl RulesEngine {
    /// The ruleset in force, as plain values.
    pub closed spec fn model(&self) -> Option<RulesetModel> {
        match self.ruleset {
            Some(r) => Some(r@),
            None => None,
        }
    }

    /// What `evaluate` returns: without a ruleset nothing is allowed.
    pub open spec fn allows(&self, path: Seq<char>, operation: Seq<char>) -> bool {
        match self.model() {
            Some(ruleset) => block_allows(ruleset.block, path, operation),
            None => false,
        }
    }

    /// An engine without a ruleset.
    pub fn new() -> (r: Self)
        ensures
            r.model() is None,
    {
        RulesEngine { ruleset: None }
    }

    /// Whether no ruleset was loaded.
    pub fn is_empty(&self) -> (r: bool)
        ensures
            r == (self.model() is None),
    {
        self.ruleset.is_none()
    }

    /// Parses `rules_str` and puts it in force. Where it does not parse, the
    /// parser's message is returned and the ruleset in force stays.
    pub fn load_rules(&mut self, rules_str: &str) -> (r: Result<(), String>)
        ensures
            match parse_ruleset(rules_str@) {
                Ok(model) => r is Ok && final(self).model() == Some(model),
                Err(m) => r matches Err(e) && e@ == m && final(self).model() == old(self).model(),
            },
    {
        let mut parser = RulesParser::new(rules_str);
        match parser.parse() {
            Ok(ruleset) => {
                self.ruleset = Some(ruleset);
                Ok(())
            },
            Err(e) => Err(e),
        }
    }

    /// Whether the ruleset in force allows `operation` on `path`. Without a
    /// ruleset the answer is no.
    pub fn permits(&self, path: &str, operation: &str) -> (r: bool)
        ensures
            r == self.allows(path@, operation@),
    {
        match &self.ruleset {
            Some(ruleset) => ruleset.match_block.permits(path, operation),
            None => false,
        }
    }

    /// Whether the ruleset in force allows `operation` on `path`, in the
    /// given context. Without a ruleset the answer is no.
    pub fn evaluate(&self, path: &str, operation: &str, context: &HashMap<String, String>) -> (r:
        bool)
        ensures
            r == self.allows(path@, operation@),
    {
        match &self.ruleset {
            Some(ruleset) => ruleset.is_allowed(path, operation, context),
            None => false,
        }
    }
}

} // verus!
