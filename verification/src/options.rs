//! Configuration switches for the diagram pipeline.

use vstd::prelude::*;

verus! {

/// Which output artifacts a run should produce.
///
/// `generate_dot` writes the canonical graph text, `generate_pdf` and
/// `generate_svg` request image emission through an external layout program,
/// and `generate_global_graph` additionally renders the whole forward graph
/// as one diagram. All switches default to off.
#[derive(Debug, Clone)]
pub struct DiagenOptions {
    pub generate_dot: bool,
    pub generate_pdf: bool,
    pub generate_svg: bool,
    pub generate_global_graph: bool,
}

impl Default for DiagenOptions {
    fn default() -> (r: Self)
        ensures
            !r.generate_dot,
            !r.generate_pdf,
            !r.generate_svg,
            !r.generate_global_graph,
    {
        DiagenOptions {
            generate_dot: false,
            generate_pdf: false,
            generate_svg: false,
            generate_global_graph: false,
        }
    }
}

} // verus!
