//! A structured, human-readable rendering of a category for diagnostics
//! and tests: the object name list, then each arrow as
//! `name: domain -> codomain`.

use vstd::prelude::*;
use vstd::string::StringExecFns;

use crate::category::Category;
use crate::model::CatModel;
use crate::model::arrow_wf;

verus! {

/// The rendering of the object names from position `j` on, comma-separated,
/// appended to `acc`.
pub open spec fn render_names(names: Seq<Seq<char>>, j: int, acc: Seq<char>) -> Seq<char>
    decreases names.len() - j,
{
    if j < 0 || j >= names.len() {
        acc
    } else if j == 0 {
        render_names(names, j + 1, acc + names[j])
    } else {
        render_names(names, j + 1, acc + ", "@ + names[j])
    }
}

/// The rendering of the arrows from position `i` on, comma-separated, each
/// as `name: domain -> codomain`, appended to `acc`.
pub open spec fn render_arrows(m: CatModel, i: int, acc: Seq<char>) -> Seq<char>
    decreases m.arrows.len() - i,
{
    if i < 0 || i >= m.arrows.len() {
        acc
    } else {
        let sep = if i == 0 {
            acc
        } else {
            acc + ", "@
        };
        render_arrows(
            m,
            i + 1,
            sep + m.arrows[i].name + ": "@ + m.objects[m.arrows[i].domain] + " -> "@
                + m.objects[m.arrows[i].codomain],
        )
    }
}

/// The full rendering: `objects: [..], arrows: [..]`.
pub open spec fn render_category(m: CatModel) -> Seq<char> {
    render_arrows(m, 0, render_names(m.objects, 0, "objects: ["@) + "], arrows: ["@) + "]"@
}

impl Category {
    /// Renders the category as `objects: [..], arrows: [..]`, each arrow
    /// as `name: domain -> codomain`.
    pub fn describe(&self) -> (r: String)
        requires
            self.wf(),
        ensures
            r@ == render_category(self@),
    {
        let ghost m = self@;
        let mut s = String::new();
        s.append("objects: [");
        proof {
            assert(s@ =~= "objects: ["@);
        }
        let mut j: usize = 0;
        while j < self.objects.len()
            invariant
                0 <= j <= self.objects.len(),
                m == self@,
                render_names(m.objects, 0, "objects: ["@) == render_names(m.objects, j as int, s@),
            decreases self.objects.len() - j,
        {
            if j > 0 {
                s.append(", ");
            }
            s.append(self.objects[j].name.as_str());
            j += 1;
        }
        s.append("], arrows: [");
        let ghost base = s@;
        let mut i: usize = 0;
        while i < self.arrows.len()
            invariant
                0 <= i <= self.arrows.len(),
                m == self@,
                self.wf(),
                render_arrows(m, 0, base) == render_arrows(m, i as int, s@),
            decreases self.arrows.len() - i,
        {
            proof {
                assert(arrow_wf(m.arrows[i as int], m.objects.len() as int, m.arrows.len() as int));
            }
            if i > 0 {
                s.append(", ");
            }
            s.append(self.arrows[i].name.as_str());
            s.append(": ");
            s.append(self.objects[self.arrows[i].domain].name.as_str());
            s.append(" -> ");
            s.append(self.objects[self.arrows[i].codomain].name.as_str());
            i += 1;
        }
        s.append("]");
        s
    }
}

} // verus!
