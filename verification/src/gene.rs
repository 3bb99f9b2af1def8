//! A gene: one generator instance, placed on the plot or not.

use vstd::prelude::*;
use crate::generator::GeneratorData;

verus! {

/// One generator instance of a chromosome, with its position on the plot.
#[derive(Clone, Copy, Debug)]
pub struct Gene {
    pub id: u8,
    pub x: u8,
    pub y: u8,
    pub w: u8,
    pub h: u8,
    pub value: u32,
    pub rotated: bool,
    pub placed: bool,
    pub gold: bool,
}

impl Gene {
    /// Width of the footprint as laid on the plot (swapped when rotated).
    pub open spec fn span_w(self) -> int {
        if self.rotated { self.h as int } else { self.w as int }
    }

    /// Height of the footprint as laid on the plot (swapped when rotated).
    pub open spec fn span_h(self) -> int {
        if self.rotated { self.w as int } else { self.h as int }
    }

    /// The cell `(cx, cy)` lies under the footprint.
    pub open spec fn covers(self, cx: int, cy: int) -> bool {
        &&& self.x <= cx < self.x + self.span_w()
        &&& self.y <= cy < self.y + self.span_h()
    }

    /// The gene that a generator kind starts as: unplaced, unrotated, at the origin.
    pub open spec fn initial(g: GeneratorData) -> Gene {
        Gene {
            id: g.id,
            x: 0,
            y: 0,
            w: g.width,
            h: g.height,
            value: g.base_value,
            rotated: false,
            placed: false,
            gold: g.gold,
        }
    }

    /// The footprint as laid on the plot, `(width, height)`.
    pub fn spans(&self) -> (r: (u8, u8))
        ensures
            r.0 == self.span_w(),
            r.1 == self.span_h(),
    {
        if self.rotated { (self.h, self.w) } else { (self.w, self.h) }
    }
}

impl From<GeneratorData> for Gene {
    fn from(value: GeneratorData) -> (g: Self) {
        Gene {
            id: value.id,
            x: 0,
            y: 0,
            w: value.width,
            h: value.height,
            value: value.base_value,
            rotated: false,
            placed: false,
            gold: value.gold,
        }
    }
}

impl vstd::std_specs::convert::FromSpecImpl<GeneratorData> for Gene {
    open spec fn obeys_from_spec() -> bool {
        true
    }

    open spec fn from_spec(v: GeneratorData) -> Gene {
        Gene::initial(v)
    }
}

} // verus!
