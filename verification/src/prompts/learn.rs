//! The name under which a practice set is offered.

use vstd::prelude::*;
use vstd::string::StringExecFns;

verus! {

/// How many parts at the start of a set's path lead to the source folder:
/// the folder the program runs in, and the source folder itself.
pub const ROOT_PARTS: usize = 2;

/// The parts of `parts` joined into one text, with `separator` between each
/// two of them.
pub open spec fn join(parts: Seq<Seq<char>>, separator: char) -> Seq<char>
    decreases parts.len(),
{
    if parts.len() == 0 {
        Seq::empty()
    } else if parts.len() == 1 {
        parts[0]
    } else {
        join(parts.drop_last(), separator) + seq![separator] + parts.last()
    }
}

/// The parts of a path that follow those that lead to the source folder.
pub open spec fn below_root(parts: Seq<Seq<char>>) -> Seq<Seq<char>> {
    if parts.len() >= ROOT_PARTS {
        parts.skip(ROOT_PARTS as int)
    } else {
        Seq::empty()
    }
}

/// The path of a practice set, as the list of its parts from the folder the
/// program runs in down to the file.
pub struct PathPart(Vec<String>);

impl View for PathPart {
    type V = Seq<Seq<char>>;

    closed spec fn view(&self) -> Seq<Seq<char>> {
        self.0.deep_view()
    }
}

impl PathPart {
    /// The path made of `parts`.
    pub fn new(parts: Vec<String>) -> (path: Self)
        ensures
            path@ == parts.deep_view(),
    {
        Self(parts)
    }

    /// The name under which the set is offered: the parts of its path below
    /// the source folder, with `/` between them.
    pub fn label(&self) -> (label: String)
        ensures
            label@ == join(below_root(self@), '/'),
    {
        let mut label = String::new();
        let n = self.0.len();
        if n <= ROOT_PARTS {
            assert(below_root(self@).len() == 0);
            return label;
        }
        let ghost parts = below_root(self@);
        let mut i: usize = ROOT_PARTS;
        while i < n
            invariant
                ROOT_PARTS <= i <= n,
                n == self.0.len(),
                parts == below_root(self@),
                parts.len() == n - ROOT_PARTS,
                label@ == join(parts.take(i - ROOT_PARTS), '/'),
            decreases n - i,
        {
            let ghost done = parts.take(i - ROOT_PARTS);
            let ghost more = parts.take(i - ROOT_PARTS + 1);
            assert(more.drop_last() =~= done);
            assert(more.last() == self.0@[i as int]@);
            if i > ROOT_PARTS {
                label.push('/');
            }
            label.append(self.0[i].as_str());
            i += 1;
        }
        assert(parts.take(n - ROOT_PARTS) =~= parts);
        label
    }
}

} // verus!
