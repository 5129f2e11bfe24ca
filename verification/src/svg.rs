//! The one piece of display markup the pipeline's owner keeps fixed: the
//! placeholder image shown when no flight is overhead.

use vstd::prelude::*;

verus! {

/// The SVG shown when no flight is overhead.
pub fn render_no_flight_svg() -> (svg: String)
    ensures
        svg@
            == "<svg width='1600' height='1200' viewBox='0 0 1600 1200' xmlns='http://www.w3.org/2000/svg'>\n  <rect width='1600' height='1200' fill='white' />\n\n  <text x='800' y='600' font-family='Google Sans, sans-serif' font-size='100' text-anchor='middle' fill='#000000'>No flights overhead</text>\n\n</svg>"@,
{
    "<svg width='1600' height='1200' viewBox='0 0 1600 1200' xmlns='http://www.w3.org/2000/svg'>\n  <rect width='1600' height='1200' fill='white' />\n\n  <text x='800' y='600' font-family='Google Sans, sans-serif' font-size='100' text-anchor='middle' fill='#000000'>No flights overhead</text>\n\n</svg>".to_owned()
}

} // verus!
