use vstd::prelude::*;

verus! {

/// Whether a tornado has been seen or only inferred from radar returns.
#[derive(PartialEq, Eq, Structural, Clone, Copy, Debug)]
pub enum TornadoStatus {
    RadarIndicated,
    Observed,
}

#[derive(PartialEq, Eq, Structural, Clone, Copy, Debug)]
pub struct TornadoWarning {
    pub tornado_status: TornadoStatus,
}

/// The damage threat tag of a severe thunderstorm warning.
#[derive(PartialEq, Eq, Structural, Clone, Copy, Debug)]
pub enum SevereThunderStormDamageThreat {
    Base,
    Considerable,
    Destructive,
}

#[derive(PartialEq, Eq, Structural, Clone, Copy, Debug)]
pub struct SevereThunderStormWarning {
    pub damage_threat: SevereThunderStormDamageThreat,
}

/// The kind of a warning, with the details that decide how it is drawn.
#[derive(PartialEq, Eq, Structural, Clone, Copy, Debug)]
pub enum WarningType {
    SevereThunderStorm(SevereThunderStormWarning),
    Tornado(TornadoWarning),
    TornadoPDS(TornadoWarning),
    TornadoEmergency(TornadoWarning),
}

/// The colours that warning outlines are drawn in.
#[derive(PartialEq, Eq, Structural, Clone, Copy, Debug)]
pub enum Color {
    Red,
    Orange,
    Yellow,
    Green,
    LightBlue,
    Blue,
    Magenta,
    Purple,
    Black,
    White,
}

/// The two outline colours of a warning polygon: a thin inner line over a thick
/// outer one.
#[derive(PartialEq, Eq, Structural, Clone, Copy, Debug)]
pub struct WarningColor {
    pub inner: Color,
    pub outer: Color,
}

/// The CSS hex code of a colour.
pub open spec fn hex_code(c: Color) -> &'static str {
    match c {
        Color::Red => "#FF0000",
        Color::Orange => "#FF6700",
        Color::Yellow => "#FFFF00",
        Color::Green => "#00FF00",
        Color::LightBlue => "#00ffea",
        Color::Blue => "#0000FF",
        Color::Magenta => "#FF00FF",
        Color::Purple => "#7a007a",
        Color::Black => "#000000",
        Color::White => "#FFFFFF",
    }
}

/// The outline colours of a warning: observed tornadoes in black inside red
/// (plain), magenta (particularly dangerous) or purple (emergency); destructive
/// thunderstorms in red inside yellow; everything else in magenta.
pub open spec fn warning_color(w: WarningType) -> WarningColor {
    match w {
        WarningType::Tornado(t) if t.tornado_status == TornadoStatus::Observed => WarningColor {
            inner: Color::Black,
            outer: Color::Red,
        },
        WarningType::TornadoEmergency(t) if t.tornado_status == TornadoStatus::Observed => {
            WarningColor { inner: Color::Black, outer: Color::Purple }
        },
        WarningType::TornadoPDS(t) if t.tornado_status == TornadoStatus::Observed => {
            WarningColor { inner: Color::Black, outer: Color::Magenta }
        },
        WarningType::SevereThunderStorm(s) if s.damage_threat
            == SevereThunderStormDamageThreat::Destructive => WarningColor {
            inner: Color::Red,
            outer: Color::Yellow,
        },
        _ => WarningColor { inner: Color::Magenta, outer: Color::Magenta },
    }
}

impl Color {
    /// The colour as a CSS hex code.
    pub fn to_string(&self) -> (r: String)
        ensures
            r@ == hex_code(*self)@,
    {
        let code: &str = match self {
            Color::Red => "#FF0000",
            Color::Orange => "#FF6700",
            Color::Yellow => "#FFFF00",
            Color::Green => "#00FF00",
            Color::LightBlue => "#00ffea",
            Color::Blue => "#0000FF",
            Color::Magenta => "#FF00FF",
            Color::Purple => "#7a007a",
            Color::Black => "#000000",
            Color::White => "#FFFFFF",
        };
        code.to_string()
    }
}

impl WarningType {
    /// The outline colours that this kind of warning is drawn in.
    pub fn get_color(&self) -> (r: WarningColor)
        ensures
            r == warning_color(*self),
    {
        match self {
            WarningType::Tornado(t) if t.tornado_status == TornadoStatus::Observed => {
                WarningColor { inner: Color::Black, outer: Color::Red }
            },
            WarningType::TornadoEmergency(t) if t.tornado_status == TornadoStatus::Observed => {
                WarningColor { inner: Color::Black, outer: Color::Purple }
            },
            WarningType::TornadoPDS(t) if t.tornado_status == TornadoStatus::Observed => {
                WarningColor { inner: Color::Black, outer: Color::Magenta }
            },
            WarningType::SevereThunderStorm(s) if s.damage_threat
                == SevereThunderStormDamageThreat::Destructive => {
                WarningColor { inner: Color::Red, outer: Color::Yellow }
            },
            _ => WarningColor { inner: Color::Magenta, outer: Color::Magenta },
        }
    }
}

/// The indices, in order, of the warnings still in force at `now`: those whose
/// expiry time is not before it.
pub open spec fn active_indices(valid_until: Seq<i64>, now: i64) -> Seq<usize>
    decreases valid_until.len(),
{
    if valid_until.len() == 0 {
        Seq::empty()
    } else {
        let earlier = active_indices(valid_until.drop_last(), now);
        if valid_until.last() >= now {
            earlier.push((valid_until.len() - 1) as usize)
        } else {
            earlier
        }
    }
}

/// Which warnings to draw at `now`, given each warning's expiry time (in the same
/// clock as `now`): the indices of those still in force, in order.
pub fn active_warnings(valid_until: &Vec<i64>, now: i64) -> (r: Vec<usize>)
    ensures
        r@ == active_indices(valid_until@, now),
{
    let mut r: Vec<usize> = Vec::new();
    let mut k: usize = 0;
    while k < valid_until.len()
        invariant
            k <= valid_until.len(),
            r@ == active_indices(valid_until@.take(k as int), now),
        decreases valid_until.len() - k,
    {
        proof {
            assert(valid_until@.take(k + 1).drop_last() =~= valid_until@.take(k as int));
        }
        if valid_until[k] >= now {
            r.push(k);
        }
        k = k + 1;
    }
    proof {
        assert(valid_until@.take(k as int) =~= valid_until@);
    }
    r
}

} // verus!
