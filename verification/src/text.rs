//! The graph seen through lines of text: lines that declare nodes, lines that
//! ask for a path, and lines that show one.

use crate::paths::answers;
use crate::store::{ingest, Graph, NodeName};
use crate::words::{split_words, words};
use vstd::prelude::*;
use vstd::string::StringExecFns;

verus! {

/// The names of `path` in order, with one space between neighbours.
pub open spec fn joined(path: Seq<Seq<char>>) -> Seq<char>
    decreases path.len(),
{
    if path.len() == 0 {
        Seq::empty()
    } else if path.len() == 1 {
        path[0]
    } else {
        joined(path.drop_last()) + " "@ + path.last()
    }
}

/// The line that shows `path`: its names separated by spaces, or `no path!`
/// for the empty path; a line feed ends either.
pub open spec fn rendered(path: Seq<Seq<char>>) -> Seq<char> {
    if path.len() == 0 {
        "no path!\n"@
    } else {
        joined(path) + "\n"@
    }
}

impl Graph {
    /// Merges the line `line` into the graph: its first word names a node,
    /// the other words the node's neighbours.
    pub fn add_line(&mut self, line: &str)
        requires
            old(self).wf(),
        ensures
            final(self).wf(),
            final(self)@ == ingest(old(self)@, words(line@)),
    {
        let mut tokens = split_words(line);
        self.add_nodes(&mut tokens);
    }

    /// Answers the query in `line`, which is to hold two words, a source and
    /// a destination: `None` if it holds fewer or more, and otherwise what
    /// [`Graph::path_finder`] finds for the two.
    pub fn query(&self, line: &str) -> (found: Option<Vec<NodeName>>)
        requires
            self.wf(),
        ensures
            match found {
                Some(path) => {
                    &&& words(line@).len() == 2
                    &&& answers(self@, words(line@)[0], words(line@)[1], path.deep_view())
                },
                None => words(line@).len() != 2,
            },
    {
        let tokens = split_words(line);
        if tokens.len() != 2 {
            return None;
        }
        Some(self.path_finder(tokens[0].as_str(), tokens[1].as_str()))
    }

    /// The line of text that shows `path`: see [`rendered`].
    pub fn print_path(&self, path: &Vec<NodeName>) -> (text: String)
        ensures
            text@ == rendered(path.deep_view()),
    {
        if path.len() == 0 {
            return "no path!\n".to_owned();
        }
        let ghost names = path.deep_view();
        let mut text = String::new();
        let mut i: usize = 0;
        while i < path.len()
            invariant
                i <= path.len(),
                names == path.deep_view(),
                text@ == joined(names.take(i as int)),
            decreases path.len() - i,
        {
            assert(names.take(i + 1).drop_last() =~= names.take(i as int));
            if i > 0 {
                text.append(" ");
            }
            text.append(path[i].as_str());
            assert(text@ =~= joined(names.take(i + 1)));
            i += 1;
        }
        assert(names.take(path.len() as int) =~= names);
        text.append("\n");
        text
    }
}

} // verus!
