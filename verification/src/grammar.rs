use vstd::prelude::*;
use crate::error::Error;
use crate::term::{Term, TermView};

verus! {

/// Mathematical value of an [`Expression`]: the terms of one alternative.
pub struct ExpressionView {
    pub terms: Seq<TermView>,
}

/// Mathematical value of a [`Production`].
pub struct ProductionView {
    pub lhs: TermView,
    pub rhs: Seq<ExpressionView>,
}

/// Mathematical value of a [`Grammar`]: its productions in textual order.
pub type GrammarView = Seq<ProductionView>;

/// One alternative of a production: an ordered sequence of terms.
#[derive(Clone, Debug, PartialEq, Eq, Hash)]
pub struct Expression {
    pub terms: Vec<Term>,
}

/// A nonterminal together with its alternatives, in textual order.
#[derive(Clone, Debug, PartialEq, Eq, Hash)]
pub struct Production {
    pub lhs: Term,
    pub rhs: Vec<Expression>,
}

/// An ordered sequence of productions; immutable after construction.  The
/// first production is the start production.
#[derive(Clone, Debug, PartialEq, Eq, Hash)]
pub struct Grammar {
    pub productions: Vec<Production>,
}

impl DeepView for Expression {
    type V = ExpressionView;

    open spec fn deep_view(&self) -> ExpressionView {
        ExpressionView { terms: self.terms.deep_view() }
    }
}

impl DeepView for Production {
    type V = ProductionView;

    open spec fn deep_view(&self) -> ProductionView {
        ProductionView { lhs: self.lhs.deep_view(), rhs: self.rhs.deep_view() }
    }
}

impl DeepView for Grammar {
    type V = GrammarView;

    open spec fn deep_view(&self) -> GrammarView {
        self.productions.deep_view()
    }
}

/// What the text of a grammar denotes: either the parsed productions or the
/// diagnostic text of the syntax error.  This names the result of bnf's
/// grammar parser, which depends on the grammar text alone.
pub uninterp spec fn parsed_grammar(text: Seq<char>) -> Result<GrammarView, Seq<char>>;

/// Relies on bnf's grammar parser (`str::parse::<bnf::Grammar>`): the
/// productions of the grammar text in textual order, each with its
/// alternatives in textual order, or a parse error.  The result is a
/// function of the text alone.
#[verifier::external_body]
pub(crate) fn parse_grammar(text: &str) -> (r: Result<Grammar, Error>)
    ensures
        r is Ok ==> parsed_grammar(text@) == Ok::<GrammarView, Seq<char>>(r->Ok_0.deep_view()),
        r is Err ==> (r->Err_0 matches Error::GrammarError(m) &&
            parsed_grammar(text@) == Err::<GrammarView, Seq<char>>(m@)),
{
    let conv = |t: &bnf::Term| match t {
        bnf::Term::Terminal(s) => Term::Terminal(s.clone()),
        bnf::Term::Nonterminal(s) => Term::Nonterminal(s.clone()),
    };
    match text.parse::<bnf::Grammar>() {
        Ok(g) => Ok(Grammar { productions: g.productions_iter().map(|p| Production {
            lhs: conv(&p.lhs),
            rhs: p.rhs_iter().map(|e| Expression { terms: e.terms_iter().map(conv).collect() }).collect(),
        }).collect() }),
        Err(e) => Err(Error::GrammarError(format!("{:?}", e))),
    }
}

} // verus!
