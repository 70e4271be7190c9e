//! A summary of the size of a corpus.
use vstd::prelude::*;
use vstd::string::StringExecFns;

use crate::underscored::{decimal, separated, Underscored};

verus! {

/// A struct containing several informations regarding the corpus.
#[derive(Debug, Clone)]
pub struct CorpusReport {
    /// The number of keys in the corpus.
    pub number_of_keys: usize,
    /// The number of grams in the corpus.
    pub number_of_grams: usize,
    /// The number of edges in the corpus.
    pub number_of_edges: usize,
}

impl CorpusReport {
    /// The report as markdown-like text: a title line, then one line per
    /// number, each number with underscores between groups of three digits.
    pub open spec fn rendered(&self) -> Seq<char> {
        "# Corpus Report\n"@ + "* Number of keys: "@ + separated(decimal(self.number_of_keys as nat))
            + "\n"@ + "* Number of grams: "@ + separated(decimal(self.number_of_grams as nat))
            + "\n"@ + "* Number of edges: "@ + separated(decimal(self.number_of_edges as nat))
            + "\n"@
    }

    /// Renders the report as markdown-like text.
    pub fn to_string(&self) -> (r: String)
        ensures
            r@ == self.rendered(),
    {
        let mut out = String::from_str("# Corpus Report\n");
        out.append("* Number of keys: ");
        let keys = self.number_of_keys.underscored();
        out.append(keys.as_str());
        out.append("\n");
        out.append("* Number of grams: ");
        let grams = self.number_of_grams.underscored();
        out.append(grams.as_str());
        out.append("\n");
        out.append("* Number of edges: ");
        let edges = self.number_of_edges.underscored();
        out.append(edges.as_str());
        out.append("\n");
        out
    }
}

} // verus!
