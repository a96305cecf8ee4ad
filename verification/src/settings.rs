//! User settings: a default mode, a number of lines, and named templates.
use vstd::prelude::*;
use crate::text::str_eq;

verus! {

broadcast use vstd::string::group_string_axioms;

/// A named display template such as `"[{time}] {level} {text}"`.
#[derive(Debug, Clone)]
pub struct TemplatePreset {
    pub name: String,
    pub template: String,
}

/// The settings read from the user's configuration file.
#[derive(Debug, Clone)]
pub struct Settings {
    pub default_mode: Option<String>,
    pub display_lines: Option<usize>,
    pub templates: Vec<TemplatePreset>,
}

impl Default for Settings {
    fn default() -> (r: Self)
        ensures
            r.default_mode is None,
            r.display_lines is None,
            r.templates@.len() == 0,
    {
        Settings { default_mode: None, display_lines: None, templates: Vec::new() }
    }
}

/// Whether preset `i` of `ts` is called `name`.
pub open spec fn is_named(ts: Seq<TemplatePreset>, i: int, name: Seq<char>) -> bool {
    ts[i].name@ == name
}

impl Settings {
    /// The template of the first preset called `name`.
    pub fn find_template(&self, name: &str) -> (r: Option<&str>)
        ensures
            r is None <==> forall|i: int|
                0 <= i < self.templates@.len() ==> !#[trigger] is_named(self.templates@, i, name@),
            r matches Some(t) ==> exists|i: int|
                0 <= i < self.templates@.len() && #[trigger] is_named(self.templates@, i, name@)
                    && t@ == self.templates@[i].template@ && forall|j: int|
                    0 <= j < i ==> !#[trigger] is_named(self.templates@, j, name@),
    {
        let mut i: usize = 0;
        while i < self.templates.len()
            invariant
                i <= self.templates@.len(),
                forall|j: int| 0 <= j < i ==> !#[trigger] is_named(self.templates@, j, name@),
            decreases self.templates@.len() - i,
        {
            if str_eq(self.templates[i].name.as_str(), name) {
                assert(is_named(self.templates@, i as int, name@));
                return Some(self.templates[i].template.as_str());
            }
            i = i + 1;
        }
        None
    }
}

} // verus!
