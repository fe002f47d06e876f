//! The public facade: one entry point from grammar text and input text to
//! an outcome.

use vstd::prelude::*;
use crate::earley::{recognized, EarleyParser};
use crate::error::Error;
use crate::grammar::parsed_grammar;
use crate::model::spec_accepted;
use crate::outcome::EarleyOutcome;
use crate::token::spec_symbols;

verus! {

/// The single entry point of the library.
#[derive(Clone, Debug, PartialEq, Eq, Hash)]
pub struct EarleyChart;

impl EarleyChart {
    /// Recognizes `input` under `grammar`, tokenizing per character or on
    /// the given delimiter.  The outcome is a function of the three
    /// arguments alone: an accepted parse carries exactly the model's
    /// chart, witnesses and symbols.  Fails exactly on grammar text that
    /// does not parse or parses to no production.
    pub fn eval(grammar: &str, input: &str, split_on: Option<char>) -> (r: Result<
        EarleyOutcome,
        Error,
    >)
        ensures
            parsed_grammar(grammar@) matches Err(mv) ==> (r matches Err(e) && (e
                matches Error::GrammarError(m) && m@ == mv)),
            parsed_grammar(grammar@) matches Ok(gv) ==> {
                &&& gv.len() == 0 ==> (r matches Err(e) && (e matches Error::GrammarError(m)
                    && m@ == "No start state candidate found in grammar!"@))
                &&& gv.len() > 0 ==> (r matches Ok(o) && recognized(
                    o,
                    gv,
                    spec_symbols(input@, split_on),
                ))
            },
    {
        let parser = match EarleyParser::new(grammar, input) {
            Ok(p) => p,
            Err(e) => {
                return Err(e);
            },
        };
        let outcome = match parser.earley_parse(split_on) {
            Ok(o) => o,
            Err(e) => {
                return Err(e);
            },
        };
        Ok(outcome)
    }

    /// Whether `input` is in the grammar's language: `true` exactly when
    /// [`EarleyChart::eval`] accepts.  Fails on the same grammars `eval`
    /// fails on.
    pub fn accept(grammar: &str, input: &str, split_on: Option<char>) -> (r: Result<bool, Error>)
        ensures
            parsed_grammar(grammar@) matches Err(mv) ==> (r matches Err(e) && (e
                matches Error::GrammarError(m) && m@ == mv)),
            parsed_grammar(grammar@) matches Ok(gv) ==> {
                &&& gv.len() == 0 ==> (r matches Err(e) && (e matches Error::GrammarError(m)
                    && m@ == "No start state candidate found in grammar!"@))
                &&& gv.len() > 0 ==> r == Ok::<bool, Error>(
                    spec_accepted(gv, spec_symbols(input@, split_on)),
                )
            },
    {
        let parser = match EarleyParser::new(grammar, input) {
            Ok(p) => p,
            Err(e) => {
                return Err(e);
            },
        };
        let res = match parser.earley_parse(split_on) {
            Ok(o) => o,
            Err(e) => {
                return Err(e);
            },
        };
        if let EarleyOutcome::Accepted(_) = res {
            Ok(true)
        } else {
            Ok(false)
        }
    }
}

} // verus!
