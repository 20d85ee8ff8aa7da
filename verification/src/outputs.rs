//! Which monitor the icons go on.
//!
//! Wayland has no notion of a primary output, so: the one named in the config, else the one
//! at the origin of the compositor's coordinate space -- which is what "leftmost" means in
//! practice -- else whatever came first. An output on its way out is never chosen: the
//! compositor has already unmapped it, and no configure would ever arrive.

use vstd::prelude::*;

use crate::layout::{Grid, Metrics, Rect};

verus! {

/// What the compositor has said about one output.
#[derive(Debug, Clone, PartialEq, Eq)]
pub struct OutputInfo {
    /// Its connector name (`DP-1`, `Virtual-1`, ...), once known.
    pub name: Option<String>,
    /// Where it sits in the compositor's coordinate space, once known.
    pub position: Option<(i32, i32)>,
    /// Whether it is on its way out.
    pub going: bool,
}

/// The mathematical content of an [`OutputInfo`].
pub struct OutputView {
    pub name: Option<Seq<char>>,
    pub position: Option<(i32, i32)>,
    pub going: bool,
}

impl View for OutputInfo {
    type V = OutputView;

    open spec fn view(&self) -> OutputView {
        OutputView {
            name: crate::strings::opt_view(self.name),
            position: self.position,
            going: self.going,
        }
    }
}

/// The views of a list of outputs.
pub open spec fn output_views(outputs: Seq<OutputInfo>) -> Seq<OutputView> {
    outputs.map_values(|o: OutputInfo| o@)
}

/// The first output from `i` on that is staying and named `wanted`.
pub open spec fn first_named(outputs: Seq<OutputView>, wanted: Seq<char>, i: int) -> Option<int>
    decreases outputs.len() - i,
{
    if i < 0 || i >= outputs.len() {
        None
    } else if !outputs[i].going && outputs[i].name == Some(wanted) {
        Some(i)
    } else {
        first_named(outputs, wanted, i + 1)
    }
}

/// The first output from `i` on that is staying and sits at the origin.
pub open spec fn first_at_origin(outputs: Seq<OutputView>, i: int) -> Option<int>
    decreases outputs.len() - i,
{
    if i < 0 || i >= outputs.len() {
        None
    } else if !outputs[i].going && outputs[i].position == Some((0i32, 0i32)) {
        Some(i)
    } else {
        first_at_origin(outputs, i + 1)
    }
}

/// The first output from `i` on that is staying.
pub open spec fn first_staying(outputs: Seq<OutputView>, i: int) -> Option<int>
    decreases outputs.len() - i,
{
    if i < 0 || i >= outputs.len() {
        None
    } else if !outputs[i].going {
        Some(i)
    } else {
        first_staying(outputs, i + 1)
    }
}

/// The output to use, and whether a name was asked for that no staying output has.
pub open spec fn chosen_output(wanted: Option<Seq<char>>, outputs: Seq<OutputView>) -> (Option<int>, bool) {
    let named = match wanted {
        Some(w) => first_named(outputs, w, 0),
        None => None,
    };
    match named {
        Some(i) => (Some(i), false),
        None => {
            let fallback = match first_at_origin(outputs, 0) {
                Some(i) => Some(i),
                None => first_staying(outputs, 0),
            };
            (fallback, wanted is Some)
        },
    }
}

/// Which output the icons go on, by its place in `outputs`; and whether the configured name
/// matched none, which is worth telling the user once rather than silently landing elsewhere.
pub fn pick_output(wanted: Option<&str>, outputs: &[OutputInfo]) -> (r: (Option<usize>, bool))
    ensures
        ({
            let (index, missing) = chosen_output(crate::locale::str_opt_view(wanted), output_views(outputs@));
            &&& missing == r.1
            &&& match (index, r.0) {
                (Some(i), Some(j)) => i == j,
                (None, None) => true,
                _ => false,
            }
        }),
{
    let ghost views = output_views(outputs@);
    match wanted {
        Some(w) => {
            let mut i: usize = 0;
            while i < outputs.len()
                invariant
                    i <= outputs.len(),
                    views == output_views(outputs@),
                    first_named(views, w@, i as int) == first_named(views, w@, 0),
                    wanted == Some(w),
                decreases outputs.len() - i,
            {
                let o = &outputs[i];
                assert(views[i as int] == o@);
                if !o.going {
                    match &o.name {
                        Some(n) => {
                            if crate::strings::same(n.as_str(), w) {
                                assert(views[i as int].name == Some(w@));
                                assert(first_named(views, w@, i as int) == Some(i as int));
                                return (Some(i), false);
                            }
                        },
                        None => {},
                    }
                }
                i = i + 1;
            }
        },
        None => {},
    }
    let missing = wanted.is_some();
    assert(crate::locale::str_opt_view(wanted) matches Some(ww) ==> first_named(views, ww, 0) is None);
    let mut i: usize = 0;
    while i < outputs.len()
        invariant
            i <= outputs.len(),
            views == output_views(outputs@),
            first_at_origin(views, i as int) == first_at_origin(views, 0),
            missing == (wanted is Some),
            crate::locale::str_opt_view(wanted) matches Some(ww) ==> first_named(views, ww, 0) is None,
        decreases outputs.len() - i,
    {
        assert(views[i as int] == outputs@[i as int]@);
        if !outputs[i].going {
            match outputs[i].position {
                Some((x, y)) => {
                    if x == 0 && y == 0 {
                        assert(first_at_origin(views, i as int) == Some(i as int));
                        return (Some(i), missing);
                    }
                },
                None => {},
            }
        }
        i = i + 1;
    }
    let mut i: usize = 0;
    while i < outputs.len()
        invariant
            i <= outputs.len(),
            views == output_views(outputs@),
            first_staying(views, i as int) == first_staying(views, 0),
            first_at_origin(views, 0) is None,
            missing == (wanted is Some),
            crate::locale::str_opt_view(wanted) matches Some(ww) ==> first_named(views, ww, 0) is None,
        decreases outputs.len() - i,
    {
        assert(views[i as int] == outputs@[i as int]@);
        if !outputs[i].going {
            assert(first_staying(views, i as int) == Some(i as int));
            return (Some(i), missing);
        }
        i = i + 1;
    }
    (None, missing)
}

/// The grid over a surface `width` by `height`, never less than a pixel each way.
pub fn surface_grid(width: u32, height: u32, metrics: Metrics) -> (g: Grid)
    ensures
        g.area == (Rect {
            x: 0,
            y: 0,
            w: if width == 0 { 1 } else if width > i32::MAX { i32::MAX } else { width as i32 },
            h: if height == 0 { 1 } else if height > i32::MAX { i32::MAX } else { height as i32 },
        }),
        g.metrics == metrics,
{
    let w: i32 = if width == 0 {
        1
    } else if width > 0x7fff_ffff {
        0x7fff_ffff
    } else {
        width as i32
    };
    let h: i32 = if height == 0 {
        1
    } else if height > 0x7fff_ffff {
        0x7fff_ffff
    } else {
        height as i32
    };
    Grid::new(Rect::new(0, 0, w, h), metrics)
}

} // verus!
