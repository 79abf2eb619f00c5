//! The closed taxonomy of component kinds, with their printed names and the
//! category predicates that the rest of the library uses.

use crate::text::push_str;
use vstd::prelude::*;

verus! {

/// The type of an inverter.
#[derive(Clone, Copy, Debug, PartialEq, Eq, Structural)]
pub enum InverterType {
    Unspecified,
    Solar,
    Battery,
    Hybrid,
}

/// The type of a battery.
#[derive(Clone, Copy, Debug, PartialEq, Eq, Structural)]
pub enum BatteryType {
    Unspecified,
    LiIon,
    NaIon,
}

/// The type of an EV charger.
#[derive(Clone, Copy, Debug, PartialEq, Eq, Structural)]
pub enum EvChargerType {
    Unspecified,
    Ac,
    Dc,
    Hybrid,
}

/// The category of a component.
#[derive(Clone, Copy, Debug, PartialEq, Eq, Structural)]
pub enum ComponentCategory {
    Unspecified,
    Grid,
    Meter,
    Battery(BatteryType),
    Inverter(InverterType),
    EvCharger(EvChargerType),
    Converter,
    CryptoMiner,
    Electrolyzer,
    Chp,
    Precharger,
    Fuse,
    VoltageTransformer,
    Hvac,
    Relay,
}

pub open spec fn inverter_type_name(t: InverterType) -> Seq<char> {
    match t {
        InverterType::Unspecified => "Unspecified"@,
        InverterType::Solar => "Solar"@,
        InverterType::Battery => "Battery"@,
        InverterType::Hybrid => "Hybrid"@,
    }
}

pub open spec fn battery_type_name(t: BatteryType) -> Seq<char> {
    match t {
        BatteryType::Unspecified => "Unspecified"@,
        BatteryType::LiIon => "LiIon"@,
        BatteryType::NaIon => "NaIon"@,
    }
}

pub open spec fn ev_charger_type_name(t: EvChargerType) -> Seq<char> {
    match t {
        EvChargerType::Unspecified => "Unspecified"@,
        EvChargerType::Ac => "AC"@,
        EvChargerType::Dc => "DC"@,
        EvChargerType::Hybrid => "Hybrid"@,
    }
}

/// The human-readable spelling of a category, as used in error messages.
pub open spec fn category_name(c: ComponentCategory) -> Seq<char> {
    match c {
        ComponentCategory::Unspecified => "Unspecified"@,
        ComponentCategory::Grid => "Grid"@,
        ComponentCategory::Meter => "Meter"@,
        ComponentCategory::Battery(t) => "Battery("@ + battery_type_name(t) + ")"@,
        ComponentCategory::Inverter(t) => inverter_type_name(t) + "Inverter"@,
        ComponentCategory::EvCharger(t) => "EVCharger("@ + ev_charger_type_name(t) + ")"@,
        ComponentCategory::Converter => "Converter"@,
        ComponentCategory::CryptoMiner => "CryptoMiner"@,
        ComponentCategory::Electrolyzer => "Electrolyzer"@,
        ComponentCategory::Chp => "CHP"@,
        ComponentCategory::Precharger => "Precharger"@,
        ComponentCategory::Fuse => "Fuse"@,
        ComponentCategory::VoltageTransformer => "VoltageTransformer"@,
        ComponentCategory::Hvac => "HVAC"@,
        ComponentCategory::Relay => "Relay"@,
    }
}

impl InverterType {
    /// Appends the printed name of the inverter type to `out`.
    pub fn write_name(&self, out: &mut String)
        ensures
            final(out)@ == old(out)@ + inverter_type_name(*self),
    {
        match self {
            InverterType::Unspecified => push_str(out, "Unspecified"),
            InverterType::Solar => push_str(out, "Solar"),
            InverterType::Battery => push_str(out, "Battery"),
            InverterType::Hybrid => push_str(out, "Hybrid"),
        }
    }

    /// The printed name of the inverter type.
    pub fn to_string(&self) -> (r: String)
        ensures
            r@ == inverter_type_name(*self),
    {
        let mut s = String::new();
        self.write_name(&mut s);
        s
    }
}

impl BatteryType {
    /// Appends the printed name of the battery type to `out`.
    pub fn write_name(&self, out: &mut String)
        ensures
            final(out)@ == old(out)@ + battery_type_name(*self),
    {
        match self {
            BatteryType::Unspecified => push_str(out, "Unspecified"),
            BatteryType::LiIon => push_str(out, "LiIon"),
            BatteryType::NaIon => push_str(out, "NaIon"),
        }
    }

    /// The printed name of the battery type.
    pub fn to_string(&self) -> (r: String)
        ensures
            r@ == battery_type_name(*self),
    {
        let mut s = String::new();
        self.write_name(&mut s);
        s
    }
}

impl EvChargerType {
    /// Appends the printed name of the EV charger type to `out`.
    pub fn write_name(&self, out: &mut String)
        ensures
            final(out)@ == old(out)@ + ev_charger_type_name(*self),
    {
        match self {
            EvChargerType::Unspecified => push_str(out, "Unspecified"),
            EvChargerType::Ac => push_str(out, "AC"),
            EvChargerType::Dc => push_str(out, "DC"),
            EvChargerType::Hybrid => push_str(out, "Hybrid"),
        }
    }

    /// The printed name of the EV charger type.
    pub fn to_string(&self) -> (r: String)
        ensures
            r@ == ev_charger_type_name(*self),
    {
        let mut s = String::new();
        self.write_name(&mut s);
        s
    }
}

impl ComponentCategory {
    /// Appends the printed name of the category to `out`.
    pub fn write_name(&self, out: &mut String)
        ensures
            final(out)@ == old(out)@ + category_name(*self),
    {
        match self {
            ComponentCategory::Unspecified => push_str(out, "Unspecified"),
            ComponentCategory::Grid => push_str(out, "Grid"),
            ComponentCategory::Meter => push_str(out, "Meter"),
            ComponentCategory::Battery(t) => {
                push_str(out, "Battery(");
                t.write_name(out);
                push_str(out, ")");
            },
            ComponentCategory::Inverter(t) => {
                t.write_name(out);
                push_str(out, "Inverter");
            },
            ComponentCategory::EvCharger(t) => {
                push_str(out, "EVCharger(");
                t.write_name(out);
                push_str(out, ")");
            },
            ComponentCategory::Converter => push_str(out, "Converter"),
            ComponentCategory::CryptoMiner => push_str(out, "CryptoMiner"),
            ComponentCategory::Electrolyzer => push_str(out, "Electrolyzer"),
            ComponentCategory::Chp => push_str(out, "CHP"),
            ComponentCategory::Precharger => push_str(out, "Precharger"),
            ComponentCategory::Fuse => push_str(out, "Fuse"),
            ComponentCategory::VoltageTransformer => push_str(out, "VoltageTransformer"),
            ComponentCategory::Hvac => push_str(out, "HVAC"),
            ComponentCategory::Relay => push_str(out, "Relay"),
        }
    }

    /// The printed name of the category, e.g. `Battery(LiIon)` or
    /// `SolarInverter`.
    pub fn to_string(&self) -> (r: String)
        ensures
            r@ == category_name(*self),
    {
        let mut s = String::new();
        self.write_name(&mut s);
        s
    }

    pub fn is_unspecified(self) -> (r: bool)
        ensures
            r == (self is Unspecified),
    {
        matches!(self, ComponentCategory::Unspecified)
    }

    pub fn is_grid(self) -> (r: bool)
        ensures
            r == (self is Grid),
    {
        matches!(self, ComponentCategory::Grid)
    }

    pub fn is_meter(self) -> (r: bool)
        ensures
            r == (self is Meter),
    {
        matches!(self, ComponentCategory::Meter)
    }

    pub fn is_battery(self) -> (r: bool)
        ensures
            r == (self is Battery),
    {
        matches!(self, ComponentCategory::Battery(_))
    }

    pub fn is_inverter(self) -> (r: bool)
        ensures
            r == (self is Inverter),
    {
        matches!(self, ComponentCategory::Inverter(_))
    }

    /// Battery inverters; an inverter of unspecified type counts as one when
    /// `allow_unspecified` is set.
    pub fn is_battery_inverter(self, allow_unspecified: bool) -> (r: bool)
        ensures
            r == battery_inverter(self, allow_unspecified),
    {
        match self {
            ComponentCategory::Inverter(InverterType::Battery) => true,
            ComponentCategory::Inverter(InverterType::Unspecified) => allow_unspecified,
            _ => false,
        }
    }

    pub fn is_pv_inverter(self) -> (r: bool)
        ensures
            r == (self == ComponentCategory::Inverter(InverterType::Solar)),
    {
        matches!(self, ComponentCategory::Inverter(InverterType::Solar))
    }

    pub fn is_hybrid_inverter(self) -> (r: bool)
        ensures
            r == (self == ComponentCategory::Inverter(InverterType::Hybrid)),
    {
        matches!(self, ComponentCategory::Inverter(InverterType::Hybrid))
    }

    /// An inverter of unspecified type that the configuration does not accept.
    pub fn is_unspecified_inverter(self, allow_unspecified: bool) -> (r: bool)
        ensures
            r == (self == ComponentCategory::Inverter(InverterType::Unspecified)
                && !allow_unspecified),
    {
        match self {
            ComponentCategory::Inverter(InverterType::Unspecified) => !allow_unspecified,
            _ => false,
        }
    }

    pub fn is_ev_charger(self) -> (r: bool)
        ensures
            r == (self is EvCharger),
    {
        matches!(self, ComponentCategory::EvCharger(_))
    }

    pub fn is_chp(self) -> (r: bool)
        ensures
            r == (self is Chp),
    {
        matches!(self, ComponentCategory::Chp)
    }
}

/// Battery inverters, counting an unspecified inverter as one when the
/// configuration allows it.
pub open spec fn battery_inverter(c: ComponentCategory, allow_unspecified: bool) -> bool {
    c == ComponentCategory::Inverter(InverterType::Battery) || (c
        == ComponentCategory::Inverter(InverterType::Unspecified) && allow_unspecified)
}

} // verus!
