//! A symbolic term-rewriting engine for boolean and arithmetic expression
//! trees: pattern matching, substitution, innermost normalization under an
//! ordered rule set, a term ordering, unification, and Knuth-Bendix
//! completion of unoriented axioms into an oriented rewrite system.

pub mod arith;
pub mod complete;
pub mod laws;
pub mod matching;
pub mod normal;
pub mod order;
pub mod render;
pub mod rule;
pub mod sem;
pub mod subst;
pub mod term;
pub mod unify;

pub use term::OpKind;
pub use term::Operator;
pub use term::TermModel;
pub use subst::Substitution;
pub use rule::RewriteRule;
pub use rule::RewriteSystem;
pub use rule::Equation;
pub use rule::MalformedRule;
pub use normal::BudgetExceeded;
pub use order::TermCmp;
pub use complete::CompletionError;
pub use complete::knuth_bendix_completion;
pub use complete::critical_pairs_join;
pub use unify::unify;
pub use arith::NumericOverflow;
