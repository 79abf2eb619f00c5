use component_graph::{
    BatteryType, ComponentCategory, ComponentGraph, ComponentGraphConfig, Edge, Error,
    EvChargerType, Expr, FormulaBuilder, InverterType, Node,
};
use std::collections::BTreeSet;

#[derive(Clone, Debug, PartialEq)]
struct TestComponent(u64, ComponentCategory, bool);

impl TestComponent {
    fn new(id: u64, category: ComponentCategory) -> Self {
        TestComponent(id, category, true)
    }
}

impl Node for TestComponent {
    fn component_id(&self) -> u64 {
        self.0
    }

    fn category(&self) -> ComponentCategory {
        self.1
    }

    fn is_supported(&self) -> bool {
        self.2
    }
}

#[derive(Clone, Debug, PartialEq)]
struct TestConnection(u64, u64);

impl Edge for TestConnection {
    fn source(&self) -> u64 {
        self.0
    }

    fn destination(&self) -> u64 {
        self.1
    }
}

#[derive(Eq, Hash, PartialEq, Copy, Clone)]
struct ComponentHandle(u64);

impl ComponentHandle {
    fn component_id(&self) -> u64 {
        self.0
    }
}

struct ComponentGraphBuilder {
    components: Vec<TestComponent>,
    connections: Vec<TestConnection>,
    next_id: u64,
}

impl ComponentGraphBuilder {
    fn new() -> Self {
        ComponentGraphBuilder {
            components: Vec::new(),
            connections: Vec::new(),
            next_id: 0,
        }
    }

    fn add_component(&mut self, category: ComponentCategory) -> ComponentHandle {
        let id = self.next_id;
        self.next_id += 1;
        self.components.push(TestComponent::new(id, category));
        ComponentHandle(id)
    }

    fn grid(&mut self) -> ComponentHandle {
        self.add_component(ComponentCategory::Grid)
    }

    fn meter(&mut self) -> ComponentHandle {
        self.add_component(ComponentCategory::Meter)
    }

    fn battery(&mut self) -> ComponentHandle {
        self.add_component(ComponentCategory::Battery(BatteryType::LiIon))
    }

    fn battery_inverter(&mut self) -> ComponentHandle {
        self.add_component(ComponentCategory::Inverter(InverterType::Battery))
    }

    fn solar_inverter(&mut self) -> ComponentHandle {
        self.add_component(ComponentCategory::Inverter(InverterType::Solar))
    }

    fn ev_charger(&mut self) -> ComponentHandle {
        self.add_component(ComponentCategory::EvCharger(EvChargerType::Ac))
    }

    fn chp(&mut self) -> ComponentHandle {
        self.add_component(ComponentCategory::Chp)
    }

    fn connect(&mut self, from: ComponentHandle, to: ComponentHandle) -> &mut Self {
        self.connections.push(TestConnection(from.0, to.0));
        self
    }

    fn meter_bat_chain(&mut self, num_inverters: usize, num_batteries: usize) -> ComponentHandle {
        let meter = self.meter();
        let mut inverters = vec![];
        for _ in 0..num_inverters {
            let inverter = self.battery_inverter();
            self.connect(meter, inverter);
            inverters.push(inverter);
        }
        for _ in 0..num_batteries {
            let battery = self.battery();
            for inverter in &inverters {
                self.connect(*inverter, battery);
            }
        }
        meter
    }

    fn inv_bat_chain(&mut self, num_batteries: usize) -> ComponentHandle {
        let inverter = self.battery_inverter();
        let mut batteries = vec![];
        for _ in 0..num_batteries {
            let battery = self.battery();
            batteries.push(battery);
        }
        for battery in &batteries {
            self.connect(inverter, *battery);
        }
        inverter
    }

    fn meter_pv_chain(&mut self, num_inverters: usize) -> ComponentHandle {
        let meter = self.meter();
        for _ in 0..num_inverters {
            let inverter = self.solar_inverter();
            self.connect(meter, inverter);
        }
        meter
    }

    fn meter_chp_chain(&mut self, num_chp: usize) -> ComponentHandle {
        let meter = self.meter();
        for _ in 0..num_chp {
            let chp = self.chp();
            self.connect(meter, chp);
        }
        meter
    }

    fn meter_ev_charger_chain(&mut self, num_ev_chargers: usize) -> ComponentHandle {
        let meter = self.meter();
        for _ in 0..num_ev_chargers {
            let ev_charger = self.ev_charger();
            self.connect(meter, ev_charger);
        }
        meter
    }

    fn build(
        &self,
        config: Option<ComponentGraphConfig>,
    ) -> Result<ComponentGraph<TestComponent, TestConnection>, Error> {
        ComponentGraph::try_new(
            self.components.clone(),
            self.connections.clone(),
            config.unwrap_or_default(),
        )
    }
}

// ----- Expressions -----

fn c(id: u64) -> Expr {
    Expr::component(id)
}

fn assert_expr(exprs: &[Expr], expected: &str) {
    for expr in exprs {
        assert_eq!(expr.to_string(), expected);
    }
}

#[test]
fn expr_test_arithmatic() {
    assert_expr(
        &[
            c(10).plus(c(11)).plus(c(12)).plus(c(13)),
            c(10).minus(c(11).negate()).plus(c(12).plus(c(13))),
            c(10).plus(c(11)).minus(c(12).minus(c(13).negate()).negate()),
        ],
        "#10 + #11 + #12 + #13",
    );

    assert_expr(
        &[
            c(10).plus(c(11)).plus(c(12)).negate(),
            c(10).negate().minus(c(11)).minus(c(12)),
            c(10).negate().minus(c(11).plus(c(12))),
            c(10).plus(c(11)).negate().minus(c(12)),
        ],
        "-(#10 + #11 + #12)",
    );

    assert_expr(
        &[
            c(11).minus(c(10)),
            c(11).plus(c(10).negate()),
            c(10).negate().plus(c(11)),
            c(10).negate().minus(c(11).negate()),
        ],
        "#11 - #10",
    );

    assert_expr(
        &[
            c(11).plus(c(12)).minus(c(10)),
            c(11).plus(c(12)).plus(c(10).negate()),
            c(10).negate().plus(c(11).plus(c(12))),
            c(10).negate().minus(c(11).plus(c(12)).negate()),
        ],
        "#11 + #12 - #10",
    );

    assert_expr(
        &[
            c(11).minus(c(12)).minus(c(10)),
            c(11).minus(c(12)).plus(c(10).negate()),
            c(10).negate().plus(c(11).minus(c(12))),
            c(10).negate().minus(c(11).minus(c(12)).negate()),
        ],
        "#11 - #12 - #10",
    );

    assert_expr(
        &[
            c(11).minus(c(12)).plus(c(10)),
            c(11).minus(c(12)).minus(c(10).negate()),
            c(11).minus(c(12)).plus(c(10)),
            c(12).minus(c(11)).negate().plus(c(10)),
        ],
        "#11 - #12 + #10",
    );

    assert_expr(
        &[
            c(11).plus(c(12)).minus(c(10).plus(c(13))),
            c(11).plus(c(12)).plus(c(10).plus(c(13)).negate()),
            c(10).plus(c(13)).negate().plus(c(11).plus(c(12))),
            c(10).plus(c(13)).negate().minus(c(11).plus(c(12)).negate()),
        ],
        "#11 + #12 - (#10 + #13)",
    );

    assert_expr(
        &[
            c(11).minus(c(12)).minus(c(10).plus(c(13))),
            c(11).minus(c(12)).plus(c(10).plus(c(13)).negate()),
            c(10).plus(c(13)).negate().plus(c(11).minus(c(12))),
            c(10).plus(c(13)).negate().minus(c(11).minus(c(12)).negate()),
        ],
        "#11 - #12 - (#10 + #13)",
    );

    assert_expr(
        &[c(11).plus(c(12)).minus(c(10).minus(c(13)))],
        "#11 + #12 - (#10 - #13)",
    );
    assert_expr(
        &[c(11).plus(c(12)).plus(c(10).minus(c(13)).negate())],
        "#11 + #12 + #13 - #10",
    );
    assert_expr(
        &[
            c(10).minus(c(13)).negate().plus(c(11).plus(c(12))),
            c(10).minus(c(13)).negate().minus(c(11).plus(c(12)).negate()),
        ],
        "#13 - #10 + #11 + #12",
    );
}

#[test]
fn expressions_test_arithmatic() {
    // The same rewrites, built in a different order of calls.
    let e = c(10).negate().minus(c(11)).minus(c(12));
    assert_eq!(e.to_string(), "-(#10 + #11 + #12)");
    let e = c(11).plus(c(10).negate());
    assert_eq!(e.to_string(), "#11 - #10");
    let e = c(10).negate().minus(c(11).negate());
    assert_eq!(e.to_string(), "#11 - #10");
    let e = c(11).plus(c(12)).plus(c(10).minus(c(13)).negate());
    assert_eq!(e.to_string(), "#11 + #12 + #13 - #10");
    let e = c(10).minus(c(13)).negate().minus(c(11).plus(c(12)).negate());
    assert_eq!(e.to_string(), "#13 - #10 + #11 + #12");
}

#[test]
fn expr_test_functions() {
    let number = Expr::number;

    assert_expr(
        &[c(1)
            .minus(
                Expr::coalesce(vec![c(5), c(7).plus(c(6))])
                    .plus(Expr::coalesce(vec![c(2), c(3)])),
            )
            .plus(Expr::coalesce(vec![
                Expr::max(vec![number(0, 0), c(5)]),
                Expr::max(vec![number(0, 0), c(7)]).plus(Expr::max(vec![number(0, 0), c(6)])),
            ]))],
        "#1 - (COALESCE(#5, #7 + #6) + COALESCE(#2, #3)) + COALESCE(MAX(0.0, #5), MAX(0.0, #7) + MAX(0.0, #6))",
    );

    assert_expr(
        &[Expr::min(vec![number(0, 0), c(5), c(7).plus(c(6))]).minus(Expr::max(vec![
            Expr::coalesce(vec![c(5), c(7).plus(c(6))]),
            c(7),
            number(2244, 2),
        ]))],
        "MIN(0.0, #5, #7 + #6) - MAX(COALESCE(#5, #7 + #6), #7, 22.44)",
    );
}

#[test]
fn numbers_print_in_decimal() {
    assert_eq!(Expr::number(0, 0).to_string(), "0.0");
    assert_eq!(Expr::number(12, 0).to_string(), "12.0");
    assert_eq!(Expr::number(1200, 2).to_string(), "12.0");
    assert_eq!(Expr::number(2244, 2).to_string(), "22.44");
    assert_eq!(Expr::number(2240, 2).to_string(), "22.4");
    assert_eq!(Expr::number(-5, 1).to_string(), "-0.5");
    assert_eq!(Expr::number(205, 3).to_string(), "0.205");
    assert_eq!(Expr::number(-7, 0).to_string(), "-7.0");
}

#[test]
fn negation_rewrites() {
    assert_eq!(c(3).negate().negate().to_string(), "#3");
    assert_eq!(c(3).negate().to_string(), "-#3");
    assert_eq!(c(3).plus(c(4)).negate().to_string(), "-(#3 + #4)");
    assert_eq!(c(3).minus(c(4)).minus(c(5)).negate().to_string(), "#4 + #5 - #3");
    assert_eq!(c(3).negate().plus(c(4).negate()).to_string(), "-(#3 + #4)");
    assert_eq!(c(2).minus(c(3)).minus(c(4).negate()).to_string(), "#2 - #3 + #4");
    assert_eq!(c(2).negate().minus(c(3)).to_string(), "-(#2 + #3)");
}

// ----- Fallback -----

#[test]
fn test_meter_fallback() -> Result<(), Error> {
    let mut builder = ComponentGraphBuilder::new();
    let grid = builder.grid();

    let grid_meter = builder.meter();
    builder.connect(grid, grid_meter);

    let meter_bat_chain = builder.meter_bat_chain(1, 1);
    builder.connect(grid_meter, meter_bat_chain);

    assert_eq!(grid_meter.component_id(), 1);
    assert_eq!(meter_bat_chain.component_id(), 2);

    let graph = builder.build(None)?;
    let expr = graph.fallback_expr(vec![1, 2], false)?;
    assert_eq!(expr.to_string(), "#1 + COALESCE(#3, #2)");

    let expr = graph.fallback_expr(vec![1, 2], true)?;
    assert_eq!(expr.to_string(), "#1 + COALESCE(#2, #3)");

    let expr = graph.fallback_expr(vec![3], true)?;
    assert_eq!(expr.to_string(), "COALESCE(#2, #3)");

    let meter_bat_chain = builder.meter_bat_chain(3, 3);
    builder.connect(grid_meter, meter_bat_chain);

    assert_eq!(meter_bat_chain.component_id(), 5);

    let graph = builder.build(None)?;
    let expr = graph.fallback_expr(vec![3, 5], false)?;
    assert_eq!(
        expr.to_string(),
        "COALESCE(#3, #2) + COALESCE(#8 + #7 + #6, #5)"
    );

    let expr = graph.fallback_expr(vec![2, 5], true)?;
    assert_eq!(
        expr.to_string(),
        "COALESCE(#2, #3) + COALESCE(#5, #8 + #7 + #6)"
    );

    let expr = graph.fallback_expr(vec![2, 6, 7, 8], true)?;
    assert_eq!(
        expr.to_string(),
        "COALESCE(#2, #3) + COALESCE(#5, #8 + #7 + #6)"
    );

    let expr = graph.fallback_expr(vec![2, 7, 8], true)?;
    assert_eq!(expr.to_string(), "COALESCE(#2, #3) + #7 + #8");

    let meter = builder.meter();
    let chp = builder.chp();
    let pv_inverter = builder.solar_inverter();
    builder.connect(grid_meter, meter);
    builder.connect(meter, chp);
    builder.connect(meter, pv_inverter);

    assert_eq!(meter.component_id(), 12);
    assert_eq!(chp.component_id(), 13);
    assert_eq!(pv_inverter.component_id(), 14);

    let graph = builder.build(None)?;
    let expr = graph.fallback_expr(vec![5, 12], true)?;
    assert_eq!(
        expr.to_string(),
        "COALESCE(#5, #8 + #7 + #6) + COALESCE(#12, #14 + #13)"
    );

    let expr = graph.fallback_expr(vec![7, 14], false)?;
    assert_eq!(expr.to_string(), "#7 + #14");

    Ok(())
}

#[test]
fn fallback_of_nothing_is_an_internal_error() {
    let mut builder = ComponentGraphBuilder::new();
    let grid = builder.grid();
    let meter = builder.meter();
    builder.connect(grid, meter);
    let graph = builder.build(None).unwrap();
    assert_eq!(
        graph.fallback_expr(vec![], false).unwrap_err().to_string(),
        "Internal: Search for fallback components failed."
    );
    assert_eq!(
        graph.fallback_expr(vec![1, 40], false).unwrap_err().to_string(),
        "ComponentNotFound: Component with id 40 not found."
    );
}

#[test]
fn unsupported_successor_disables_meter_fallback() {
    let components = vec![
        TestComponent::new(1, ComponentCategory::Grid),
        TestComponent::new(2, ComponentCategory::Meter),
        TestComponent(3, ComponentCategory::Inverter(InverterType::Solar), false),
        TestComponent::new(4, ComponentCategory::Inverter(InverterType::Solar)),
    ];
    let connections = vec![
        TestConnection(1, 2),
        TestConnection(2, 3),
        TestConnection(2, 4),
    ];
    let graph =
        ComponentGraph::try_new(components, connections, ComponentGraphConfig::default()).unwrap();
    assert_eq!(graph.fallback_expr(vec![2], true).unwrap().to_string(), "#2");
    assert_eq!(graph.pv_formula(None).unwrap(), "#2");
}

// ----- Generators -----

#[test]
fn test_battery_formula() -> Result<(), Error> {
    let mut builder = ComponentGraphBuilder::new();
    let grid = builder.grid();

    let grid_meter = builder.meter();
    builder.connect(grid, grid_meter);

    let graph = builder.build(None)?;
    let formula = graph.battery_formula(None)?;
    assert_eq!(formula, "0.0");

    let meter_bat_chain = builder.meter_bat_chain(1, 1);
    builder.connect(grid_meter, meter_bat_chain);

    assert_eq!(grid_meter.component_id(), 1);
    assert_eq!(meter_bat_chain.component_id(), 2);

    let graph = builder.build(None)?;
    let formula = graph.battery_formula(None)?;
    assert_eq!(formula, "COALESCE(#3, #2)");

    let meter_bat_chain = builder.meter_bat_chain(1, 2);
    builder.connect(grid_meter, meter_bat_chain);

    assert_eq!(meter_bat_chain.component_id(), 5);

    let graph = builder.build(None)?;
    let formula = graph.battery_formula(None)?;
    assert_eq!(formula, "COALESCE(#3, #2) + COALESCE(#6, #5)");

    let formula = graph.battery_formula(Some(BTreeSet::from([4])))?;
    assert_eq!(formula, "COALESCE(#3, #2)");

    let formula = graph.battery_formula(Some(BTreeSet::from([7, 8])))?;
    assert_eq!(formula, "COALESCE(#6, #5)");

    let formula = graph
        .battery_formula(Some(BTreeSet::from([4, 8, 7])))
        .unwrap();
    assert_eq!(formula, "COALESCE(#3, #2) + COALESCE(#6, #5)");

    let meter_bat_chain = builder.meter_bat_chain(2, 2);
    builder.connect(grid_meter, meter_bat_chain);

    assert_eq!(meter_bat_chain.component_id(), 9);

    let graph = builder.build(None)?;
    let formula = graph.battery_formula(None)?;
    assert_eq!(
        formula,
        "COALESCE(#3, #2) + COALESCE(#6, #5) + COALESCE(#11 + #10, #9)"
    );

    let formula = graph
        .battery_formula(Some(BTreeSet::from([12, 13])))
        .unwrap();
    assert_eq!(formula, "COALESCE(#11 + #10, #9)");

    let meter_pv_chain = builder.meter_pv_chain(2);
    builder.connect(grid_meter, meter_pv_chain);

    assert_eq!(meter_pv_chain.component_id(), 14);

    let graph = builder.build(None)?;
    let formula = graph.battery_formula(None)?;
    assert_eq!(
        formula,
        "COALESCE(#3, #2) + COALESCE(#6, #5) + COALESCE(#11 + #10, #9)"
    );

    let meter = builder.meter();
    builder.connect(grid, meter);
    let inv_bat_chain = builder.inv_bat_chain(1);
    builder.connect(meter, inv_bat_chain);

    assert_eq!(meter.component_id(), 17);
    assert_eq!(inv_bat_chain.component_id(), 18);

    let inv_bat_chain = builder.inv_bat_chain(1);
    builder.connect(meter, inv_bat_chain);

    assert_eq!(inv_bat_chain.component_id(), 20);

    let graph = builder.build(None)?;
    let formula = graph.battery_formula(None)?;
    assert_eq!(
        formula,
        "COALESCE(#3, #2) + COALESCE(#6, #5) + COALESCE(#11 + #10, #9) + COALESCE(#20 + #18, #17)"
    );

    let formula = graph
        .battery_formula(Some(BTreeSet::from([19, 21])))
        .unwrap();
    assert_eq!(formula, "COALESCE(#20 + #18, #17)");

    let formula = graph.battery_formula(Some(BTreeSet::from([19]))).unwrap();
    assert_eq!(formula, "#18");

    let formula = graph.battery_formula(Some(BTreeSet::from([21]))).unwrap();
    assert_eq!(formula, "#20");

    let formula = graph
        .battery_formula(Some(BTreeSet::from([4, 12, 13, 19])))
        .unwrap();
    assert_eq!(formula, "COALESCE(#3, #2) + COALESCE(#11 + #10, #9) + #18");

    // Failure cases:
    let formula = graph.battery_formula(Some(BTreeSet::from([17])));
    assert_eq!(
        formula.unwrap_err().to_string(),
        "InvalidComponent: Component with id 17 is not a battery."
    );

    let formula = graph.battery_formula(Some(BTreeSet::from([12])));
    assert_eq!(
        formula.unwrap_err().to_string(),
        "InvalidComponent: Battery 12 can't be in a formula without all its siblings: [13]."
    );

    Ok(())
}

#[test]
fn test_chp_formula() -> Result<(), Error> {
    let mut builder = ComponentGraphBuilder::new();
    let grid = builder.grid();

    let grid_meter = builder.meter();
    builder.connect(grid, grid_meter);

    let graph = builder.build(None)?;
    let formula = graph.pv_formula(None)?;
    assert_eq!(formula, "0.0");

    let meter_chp_chain = builder.meter_chp_chain(1);
    builder.connect(grid_meter, meter_chp_chain);

    assert_eq!(grid_meter.component_id(), 1);
    assert_eq!(meter_chp_chain.component_id(), 2);

    let graph = builder.build(None)?;
    let formula = graph.chp_formula(None)?;
    assert_eq!(formula, "COALESCE(#3, #2)");

    let meter_bat_chain = builder.meter_bat_chain(1, 2);
    builder.connect(grid_meter, meter_bat_chain);

    assert_eq!(meter_bat_chain.component_id(), 4);

    let graph = builder.build(None)?;
    let formula = graph.chp_formula(None)?;
    assert_eq!(formula, "COALESCE(#3, #2)");

    let meter_chp_chain = builder.meter_chp_chain(2);
    builder.connect(grid_meter, meter_chp_chain);

    assert_eq!(meter_chp_chain.component_id(), 8);

    let graph = builder.build(None)?;
    let formula = graph.chp_formula(None)?;
    assert_eq!(formula, "COALESCE(#3, #2) + COALESCE(#10 + #9, #8)");

    let formula = graph.chp_formula(Some(BTreeSet::from([10, 3]))).unwrap();
    assert_eq!(formula, "COALESCE(#3, #2) + #10");

    let meter_chp_chain = builder.meter_chp_chain(3);
    builder.connect(grid, meter_chp_chain);

    assert_eq!(meter_chp_chain.component_id(), 11);

    let graph = builder.build(None)?;
    let formula = graph.chp_formula(None)?;
    assert_eq!(
        formula,
        "COALESCE(#3, #2) + COALESCE(#10 + #9, #8) + COALESCE(#14 + #13 + #12, #11)",
    );

    let formula = graph
        .chp_formula(Some(BTreeSet::from([3, 9, 10, 12, 13])))
        .unwrap();
    assert_eq!(
        formula,
        "COALESCE(#3, #2) + COALESCE(#10 + #9, #8) + #12 + #13"
    );

    let formula = graph
        .chp_formula(Some(BTreeSet::from([3, 9, 10, 12, 13, 14])))
        .unwrap();
    assert_eq!(
        formula,
        "COALESCE(#3, #2) + COALESCE(#10 + #9, #8) + COALESCE(#14 + #13 + #12, #11)"
    );

    let formula = graph.chp_formula(Some(BTreeSet::from([10, 14]))).unwrap();
    assert_eq!(formula, "#10 + #14");

    let formula = graph.chp_formula(Some(BTreeSet::from([8])));
    assert_eq!(
        formula.unwrap_err().to_string(),
        "InvalidComponent: Component with id 8 is not a CHP."
    );

    Ok(())
}

#[test]
fn test_ev_charger_formula() -> Result<(), Error> {
    let mut builder = ComponentGraphBuilder::new();
    let grid = builder.grid();

    let grid_meter = builder.meter();
    builder.connect(grid, grid_meter);

    let meter_ev_charger_chain = builder.meter_ev_charger_chain(1);
    builder.connect(grid_meter, meter_ev_charger_chain);

    assert_eq!(grid_meter.component_id(), 1);
    assert_eq!(meter_ev_charger_chain.component_id(), 2);

    let graph = builder.build(None)?;
    let formula = graph.ev_charger_formula(None)?;
    assert_eq!(formula, "COALESCE(#3, #2)");

    let meter_bat_chain = builder.meter_bat_chain(1, 2);
    builder.connect(grid_meter, meter_bat_chain);

    assert_eq!(meter_bat_chain.component_id(), 4);

    let graph = builder.build(None)?;
    let formula = graph.ev_charger_formula(None)?;
    assert_eq!(formula, "COALESCE(#3, #2)");

    let meter_ev_charger_chain = builder.meter_ev_charger_chain(2);
    builder.connect(grid_meter, meter_ev_charger_chain);

    assert_eq!(meter_ev_charger_chain.component_id(), 8);

    let graph = builder.build(None)?;
    let formula = graph.ev_charger_formula(None)?;
    assert_eq!(formula, "COALESCE(#3, #2) + COALESCE(#10 + #9, #8)");

    let formula = graph
        .ev_charger_formula(Some(BTreeSet::from([10, 3])))
        .unwrap();
    assert_eq!(formula, "COALESCE(#3, #2) + #10");

    let meter_ev_charger_chain = builder.meter_ev_charger_chain(3);
    builder.connect(grid, meter_ev_charger_chain);

    assert_eq!(meter_ev_charger_chain.component_id(), 11);

    let graph = builder.build(None)?;
    let formula = graph.ev_charger_formula(None)?;
    assert_eq!(
        formula,
        "COALESCE(#3, #2) + COALESCE(#10 + #9, #8) + COALESCE(#14 + #13 + #12, #11)",
    );

    let formula = graph
        .ev_charger_formula(Some(BTreeSet::from([3, 9, 10, 12, 13])))
        .unwrap();
    assert_eq!(
        formula,
        "COALESCE(#3, #2) + COALESCE(#10 + #9, #8) + #12 + #13"
    );

    let formula = graph
        .ev_charger_formula(Some(BTreeSet::from([3, 9, 10, 12, 13, 14])))
        .unwrap();
    assert_eq!(
        formula,
        "COALESCE(#3, #2) + COALESCE(#10 + #9, #8) + COALESCE(#14 + #13 + #12, #11)"
    );

    let formula = graph
        .ev_charger_formula(Some(BTreeSet::from([10, 14])))
        .unwrap();
    assert_eq!(formula, "#10 + #14");

    let formula = graph.ev_charger_formula(Some(BTreeSet::from([8])));
    assert_eq!(
        formula.unwrap_err().to_string(),
        "InvalidComponent: Component with id 8 is not an EV charger."
    );

    Ok(())
}

#[test]
fn test_pv_formula() -> Result<(), Error> {
    let mut builder = ComponentGraphBuilder::new();
    let grid = builder.grid();

    let grid_meter = builder.meter();
    builder.connect(grid, grid_meter);

    let graph = builder.build(None)?;
    let formula = graph.pv_formula(None)?;
    assert_eq!(formula, "0.0");

    let meter_pv_chain = builder.meter_pv_chain(1);
    builder.connect(grid_meter, meter_pv_chain);

    assert_eq!(grid_meter.component_id(), 1);
    assert_eq!(meter_pv_chain.component_id(), 2);

    let graph = builder.build(None)?;
    let formula = graph.pv_formula(None)?;
    assert_eq!(formula, "COALESCE(#3, #2)");

    let meter_bat_chain = builder.meter_bat_chain(1, 2);
    builder.connect(grid_meter, meter_bat_chain);

    assert_eq!(meter_bat_chain.component_id(), 4);

    let graph = builder.build(None)?;
    let formula = graph.pv_formula(None)?;
    assert_eq!(formula, "COALESCE(#3, #2)");

    let meter_pv_chain = builder.meter_pv_chain(2);
    builder.connect(grid_meter, meter_pv_chain);

    assert_eq!(meter_pv_chain.component_id(), 8);

    let graph = builder.build(None)?;
    let formula = graph.pv_formula(None)?;
    assert_eq!(formula, "COALESCE(#3, #2) + COALESCE(#10 + #9, #8)");

    let formula = graph.pv_formula(Some(BTreeSet::from([10, 3]))).unwrap();
    assert_eq!(formula, "COALESCE(#3, #2) + #10");

    let meter_pv_chain = builder.meter_pv_chain(3);
    builder.connect(grid, meter_pv_chain);

    assert_eq!(meter_pv_chain.component_id(), 11);

    let graph = builder.build(None)?;
    let formula = graph.pv_formula(None)?;
    assert_eq!(
        formula,
        "COALESCE(#3, #2) + COALESCE(#10 + #9, #8) + COALESCE(#14 + #13 + #12, #11)",
    );

    let formula = graph
        .pv_formula(Some(BTreeSet::from([3, 9, 10, 12, 13])))
        .unwrap();
    assert_eq!(
        formula,
        "COALESCE(#3, #2) + COALESCE(#10 + #9, #8) + #12 + #13"
    );

    let formula = graph
        .pv_formula(Some(BTreeSet::from([3, 9, 10, 12, 13, 14])))
        .unwrap();
    assert_eq!(
        formula,
        "COALESCE(#3, #2) + COALESCE(#10 + #9, #8) + COALESCE(#14 + #13 + #12, #11)"
    );

    let formula = graph.pv_formula(Some(BTreeSet::from([10, 14]))).unwrap();
    assert_eq!(formula, "#10 + #14");

    let formula = graph.pv_formula(Some(BTreeSet::from([8])));
    assert_eq!(
        formula.unwrap_err().to_string(),
        "InvalidComponent: Component with id 8 is not a PV inverter."
    );

    Ok(())
}

#[test]
fn grid_test_grid_formula() -> Result<(), Error> {
    let mut builder = ComponentGraphBuilder::new();
    let grid = builder.grid();

    let grid_meter = builder.meter();
    let meter_bat_chain = builder.meter_bat_chain(1, 1);
    builder.connect(grid, grid_meter);
    builder.connect(grid_meter, meter_bat_chain);

    let graph = builder.build(None)?;
    let formula = graph.grid_formula()?;
    assert_eq!(formula, "#1");

    let dangling_meter = builder.meter();
    let meter_bat_chain = builder.meter_bat_chain(1, 1);
    let meter_pv_chain = builder.meter_pv_chain(1);
    builder.connect(grid, dangling_meter);
    builder.connect(grid, meter_bat_chain);
    builder.connect(grid, meter_pv_chain);

    assert_eq!(dangling_meter.component_id(), 5);
    assert_eq!(meter_bat_chain.component_id(), 6);
    assert_eq!(meter_pv_chain.component_id(), 9);

    let graph = builder.build(None)?;
    let formula = graph.grid_formula()?;
    assert_eq!(formula, "#1 + #5 + COALESCE(#6, #7) + COALESCE(#9, #10)");

    let pv_inverter = builder.solar_inverter();
    builder.connect(grid, pv_inverter);

    assert_eq!(pv_inverter.component_id(), 11);

    let graph = builder.build(None)?;
    let formula = graph.grid_formula()?;
    assert_eq!(
        formula,
        "#1 + #5 + COALESCE(#6, #7) + COALESCE(#9, #10) + #11"
    );

    Ok(())
}

#[test]
fn test_producer_formula() -> Result<(), Error> {
    let mut builder = ComponentGraphBuilder::new();
    let grid = builder.grid();

    let grid_meter = builder.meter();
    builder.connect(grid, grid_meter);

    let graph = builder.build(None)?;
    let formula = graph.producer_formula()?;
    assert_eq!(formula, "0.0");

    let meter_pv_chain = builder.meter_pv_chain(2);
    builder.connect(grid_meter, meter_pv_chain);

    let graph = builder.build(None)?;
    let formula = graph.producer_formula()?;
    assert_eq!(formula, "MIN(0.0, COALESCE(#4 + #3, #2))");

    let meter_chp_chain = builder.meter_chp_chain(1);
    builder.connect(grid, meter_chp_chain);

    let graph = builder.build(None)?;
    let formula = graph.producer_formula()?;
    assert_eq!(
        formula,
        "MIN(0.0, COALESCE(#4 + #3, #2)) + MIN(0.0, COALESCE(#6, #5))"
    );

    let chp = builder.chp();
    builder.connect(grid, chp);

    let graph = builder.build(None)?;
    let formula = graph.producer_formula()?;
    assert_eq!(
        formula,
        "MIN(0.0, COALESCE(#4 + #3, #2)) + MIN(0.0, COALESCE(#6, #5)) + MIN(0.0, #7)"
    );

    let pv_inverter = builder.solar_inverter();
    builder.connect(grid_meter, pv_inverter);

    let graph = builder.build(None)?;
    let formula = graph.producer_formula()?;
    assert_eq!(
        formula,
        "MIN(0.0, COALESCE(#4 + #3, #2)) + MIN(0.0, COALESCE(#6, #5)) + MIN(0.0, #7) + MIN(0.0, #8)"
    );

    let meter_bat_chain = builder.meter_bat_chain(1, 1);
    builder.connect(grid_meter, meter_bat_chain);

    let graph = builder.build(None)?;
    let formula = graph.producer_formula()?;
    assert_eq!(
        formula,
        "MIN(0.0, COALESCE(#4 + #3, #2)) + MIN(0.0, COALESCE(#6, #5)) + MIN(0.0, #7) + MIN(0.0, #8)"
    );

    let meter = builder.meter();
    let pv_inverter = builder.solar_inverter();
    let chp = builder.chp();
    builder.connect(meter, pv_inverter);
    builder.connect(meter, chp);
    builder.connect(grid_meter, meter);

    let graph = builder.build(None)?;
    let formula = graph.producer_formula()?;
    assert_eq!(
        formula,
        "MIN(0.0, COALESCE(#4 + #3, #2)) + MIN(0.0, COALESCE(#6, #5)) + MIN(0.0, #7) + MIN(0.0, #8) + MIN(0.0, #13) + MIN(0.0, #14)"
    );

    Ok(())
}

#[test]
fn test_zero_consumers() -> Result<(), Error> {
    let mut builder = ComponentGraphBuilder::new();
    let grid = builder.grid();

    let inv_bat_chain = builder.inv_bat_chain(1);
    builder.connect(grid, inv_bat_chain);

    let graph = builder.build(None)?;
    let formula = graph.consumer_formula()?;
    assert_eq!(formula, "0.0");

    Ok(())
}

#[test]
fn test_consumer_formula_with_grid_meter() -> Result<(), Error> {
    let mut builder = ComponentGraphBuilder::new();
    let grid = builder.grid();

    let grid_meter = builder.meter();
    builder.connect(grid, grid_meter);

    let graph = builder.build(None)?;
    let formula = graph.consumer_formula()?;
    assert_eq!(formula, "MAX(0.0, #1)");

    let meter_bat_chain = builder.meter_bat_chain(1, 1);
    builder.connect(grid_meter, meter_bat_chain);

    assert_eq!(meter_bat_chain.component_id(), 2);

    let graph = builder.build(None)?;
    let formula = graph.consumer_formula()?;
    assert_eq!(
        formula,
        "MAX(0.0, #1 - COALESCE(#2, #3)) + COALESCE(MAX(0.0, #2 - #3), 0.0)"
    );

    let meter_pv_chain = builder.meter_pv_chain(2);
    builder.connect(grid_meter, meter_pv_chain);

    assert_eq!(meter_pv_chain.component_id(), 5);

    let graph = builder.build(None)?;
    let formula = graph.consumer_formula()?;
    assert_eq!(
        formula,
        "MAX(0.0, #1 - COALESCE(#2, #3) - COALESCE(#5, #7 + #6)) + COALESCE(MAX(0.0, #2 - #3), 0.0) + COALESCE(MAX(0.0, #5 - #6 - #7), 0.0)"
    );

    let solar_inverter = builder.solar_inverter();
    let chp = builder.chp();
    let ev_charger = builder.ev_charger();
    let meter = builder.meter();
    builder.connect(meter, solar_inverter);
    builder.connect(meter, chp);
    builder.connect(meter, ev_charger);
    builder.connect(grid_meter, meter);

    assert_eq!(solar_inverter.component_id(), 8);
    assert_eq!(chp.component_id(), 9);
    assert_eq!(ev_charger.component_id(), 10);
    assert_eq!(meter.component_id(), 11);

    let graph = builder.build(None)?;
    let formula = graph.consumer_formula()?;
    assert_eq!(
        formula,
        "MAX(0.0, #1 - COALESCE(#2, #3) - COALESCE(#5, #7 + #6) - COALESCE(#11, #10 + #9 + #8)) + COALESCE(MAX(0.0, #2 - #3), 0.0) + COALESCE(MAX(0.0, #5 - #6 - #7), 0.0) + COALESCE(MAX(0.0, #11 - #8 - #9 - #10), 0.0)"
    );

    let meter_bat_chain = builder.meter_bat_chain(1, 1);
    let dangling_meter = builder.meter();
    builder.connect(grid_meter, meter_bat_chain);
    builder.connect(grid, dangling_meter);

    assert_eq!(meter_bat_chain.component_id(), 12);
    assert_eq!(dangling_meter.component_id(), 15);

    let graph = builder.build(None)?;
    let formula = graph.consumer_formula()?;
    assert_eq!(
        formula,
        "MAX(0.0, #1 - COALESCE(#2, #3) - COALESCE(#5, #7 + #6) - COALESCE(#11, #10 + #9 + #8) - COALESCE(#12, #13)) + COALESCE(MAX(0.0, #2 - #3), 0.0) + COALESCE(MAX(0.0, #5 - #6 - #7), 0.0) + COALESCE(MAX(0.0, #11 - #8 - #9 - #10), 0.0) + COALESCE(MAX(0.0, #12 - #13), 0.0) + MAX(0.0, #15)"
    );

    Ok(())
}

#[test]
fn test_consumer_formula_without_grid_meter() -> Result<(), Error> {
    let mut builder = ComponentGraphBuilder::new();
    let grid = builder.grid();

    let meter_bat_chain = builder.meter_bat_chain(1, 1);
    builder.connect(grid, meter_bat_chain);

    assert_eq!(meter_bat_chain.component_id(), 1);

    let graph = builder.build(None)?;
    let formula = graph.consumer_formula()?;
    assert_eq!(formula, "COALESCE(MAX(0.0, #1 - #2), 0.0)");

    let meter_pv_chain = builder.meter_pv_chain(1);
    let dangling_meter_1 = builder.meter();
    let dangling_meter_2 = builder.meter();
    builder.connect(grid, meter_pv_chain);
    builder.connect(grid, dangling_meter_1);
    builder.connect(grid, dangling_meter_2);

    assert_eq!(meter_pv_chain.component_id(), 4);
    assert_eq!(dangling_meter_1.component_id(), 6);
    assert_eq!(dangling_meter_2.component_id(), 7);

    let graph = builder.build(None)?;
    let formula = graph.consumer_formula()?;
    assert_eq!(
        formula,
        "COALESCE(MAX(0.0, #1 - #2), 0.0) + COALESCE(MAX(0.0, #4 - #5), 0.0) + MAX(0.0, #6) + MAX(0.0, #7)"
    );

    let inv_bat_chain = builder.inv_bat_chain(1);
    builder.connect(grid, inv_bat_chain);

    let graph = builder.build(None)?;
    let formula = graph.consumer_formula()?;
    assert_eq!(
        formula,
        "COALESCE(MAX(0.0, #1 - #2), 0.0) + COALESCE(MAX(0.0, #4 - #5), 0.0) + MAX(0.0, #6) + MAX(0.0, #7)"
    );

    let pv_inv = builder.solar_inverter();
    let chp = builder.chp();
    builder.connect(grid, pv_inv);
    builder.connect(grid, chp);

    assert_eq!(pv_inv.component_id(), 10);
    assert_eq!(chp.component_id(), 11);

    let graph = builder.build(None)?;
    let formula = graph.consumer_formula()?;
    assert_eq!(
        formula,
        "COALESCE(MAX(0.0, #1 - #2), 0.0) + COALESCE(MAX(0.0, #4 - #5), 0.0) + MAX(0.0, #6) + MAX(0.0, #7) + MAX(0.0, #11) + MAX(0.0, #10)"
    );

    Ok(())
}

#[test]
fn test_consumer_formula_diamond_meters() -> Result<(), Error> {
    let mut builder = ComponentGraphBuilder::new();
    let grid = builder.grid();

    let grid_meter_1 = builder.meter();
    let grid_meter_2 = builder.meter();
    let grid_meter_3 = builder.meter();
    builder.connect(grid, grid_meter_1);
    builder.connect(grid, grid_meter_2);
    builder.connect(grid, grid_meter_3);

    let graph = builder.build(None)?;
    let formula = graph.consumer_formula()?;
    assert_eq!(formula, "MAX(0.0, #1) + MAX(0.0, #2) + MAX(0.0, #3)");

    let meter_pv_chain_1 = builder.meter_pv_chain(1);
    let meter_pv_chain_2 = builder.meter_pv_chain(1);
    builder.connect(grid_meter_1, meter_pv_chain_1);
    builder.connect(grid_meter_1, meter_pv_chain_2);
    builder.connect(grid_meter_2, meter_pv_chain_1);
    builder.connect(grid_meter_2, meter_pv_chain_2);

    assert_eq!(meter_pv_chain_1.component_id(), 4);
    assert_eq!(meter_pv_chain_2.component_id(), 6);

    let graph = builder.build(None)?;
    let formula = graph.consumer_formula()?;
    assert_eq!(
        formula,
        "MAX(0.0, #1 + #2 - COALESCE(#4, #5) - COALESCE(#6, #7)) + MAX(0.0, #3) + COALESCE(MAX(0.0, #4 - #5), 0.0) + COALESCE(MAX(0.0, #6 - #7), 0.0)"
    );

    let meter = builder.meter();
    builder.connect(grid_meter_3, meter);
    builder.connect(meter, meter_pv_chain_1);
    builder.connect(meter, meter_pv_chain_2);

    assert_eq!(meter.component_id(), 8);

    let graph = builder.build(None)?;
    let formula = graph.consumer_formula()?;
    assert_eq!(
        formula,
        "MAX(0.0, #1 + #8 + #2 - COALESCE(#4, #5) - COALESCE(#6, #7)) + MAX(0.0, #3 - #8) + COALESCE(MAX(0.0, #4 - #5), 0.0) + COALESCE(MAX(0.0, #6 - #7), 0.0)"
    );

    let meter_bat_chain = builder.meter_bat_chain(1, 1);
    builder.connect(grid_meter_1, meter_bat_chain);

    let graph = builder.build(None)?;
    let formula = graph.consumer_formula()?;
    assert_eq!(
        formula,
        "MAX(0.0, #1 + #8 + #2 - COALESCE(#4, #5) - COALESCE(#6, #7) - COALESCE(#9, #10)) + MAX(0.0, #3 - #8) + COALESCE(MAX(0.0, #4 - #5), 0.0) + COALESCE(MAX(0.0, #6 - #7), 0.0) + COALESCE(MAX(0.0, #9 - #10), 0.0)"
    );

    let builder_formula = FormulaBuilder::new(&graph).consumption_formula()?;
    assert_eq!(builder_formula, formula);

    Ok(())
}

// ----- Worked examples -----

#[test]
fn single_grid_and_grid_meter() {
    let mut builder = ComponentGraphBuilder::new();
    let grid = builder.grid();
    let meter = builder.meter();
    builder.connect(grid, meter);
    let graph = builder.build(None).unwrap();
    assert_eq!(graph.grid_formula().unwrap(), "#1");
    assert_eq!(graph.consumer_formula().unwrap(), "MAX(0.0, #1)");
    assert_eq!(graph.producer_formula().unwrap(), "0.0");
}

#[test]
fn grid_meter_with_battery_chain() {
    let mut builder = ComponentGraphBuilder::new();
    let grid = builder.grid();
    let grid_meter = builder.meter();
    builder.connect(grid, grid_meter);
    let chain = builder.meter_bat_chain(1, 1);
    builder.connect(grid_meter, chain);
    let graph = builder.build(None).unwrap();
    assert_eq!(graph.battery_formula(None).unwrap(), "COALESCE(#3, #2)");
    assert_eq!(graph.grid_formula().unwrap(), "#1");
    assert_eq!(
        graph.consumer_formula().unwrap(),
        "MAX(0.0, #1 - COALESCE(#2, #3)) + COALESCE(MAX(0.0, #2 - #3), 0.0)"
    );
}

#[test]
fn battery_without_its_sibling() {
    let components = vec![
        TestComponent::new(0, ComponentCategory::Grid),
        TestComponent::new(1, ComponentCategory::Meter),
        TestComponent::new(2, ComponentCategory::Meter),
        TestComponent::new(3, ComponentCategory::Inverter(InverterType::Battery)),
        TestComponent::new(4, ComponentCategory::Battery(BatteryType::LiIon)),
        TestComponent::new(5, ComponentCategory::Battery(BatteryType::LiIon)),
    ];
    let connections = vec![
        TestConnection(0, 1),
        TestConnection(1, 2),
        TestConnection(2, 3),
        TestConnection(3, 4),
        TestConnection(3, 5),
    ];
    let graph =
        ComponentGraph::try_new(components, connections, ComponentGraphConfig::default()).unwrap();
    assert_eq!(
        graph.battery_formula(Some(BTreeSet::from([4]))),
        Err(Error::invalid_component(
            "Battery 4 can't be in a formula without all its siblings: [5]."
        ))
    );
    assert_eq!(
        graph.battery_formula(Some(BTreeSet::from([4, 5]))).unwrap(),
        "COALESCE(#3, #2)"
    );
    assert_eq!(
        graph.battery_formula(Some(BTreeSet::from([40]))),
        Err(Error::component_not_found("Component with id 40 not found."))
    );
}

#[test]
fn producer_with_pv_chain() {
    let components = vec![
        TestComponent::new(1, ComponentCategory::Grid),
        TestComponent::new(2, ComponentCategory::Meter),
        TestComponent::new(3, ComponentCategory::Meter),
        TestComponent::new(4, ComponentCategory::Inverter(InverterType::Solar)),
        TestComponent::new(5, ComponentCategory::Inverter(InverterType::Solar)),
    ];
    let connections = vec![
        TestConnection(1, 2),
        TestConnection(2, 3),
        TestConnection(3, 4),
        TestConnection(3, 5),
    ];
    let graph =
        ComponentGraph::try_new(components, connections, ComponentGraphConfig::default()).unwrap();
    assert_eq!(
        graph.producer_formula().unwrap(),
        "MIN(0.0, COALESCE(#5 + #4, #3))"
    );
}

#[test]
fn empty_categories_give_zero() {
    let mut builder = ComponentGraphBuilder::new();
    let grid = builder.grid();
    let meter = builder.meter();
    builder.connect(grid, meter);
    let graph = builder.build(None).unwrap();
    assert_eq!(graph.pv_formula(None).unwrap(), "0.0");
    assert_eq!(graph.battery_formula(None).unwrap(), "0.0");
    assert_eq!(graph.chp_formula(None).unwrap(), "0.0");
    assert_eq!(graph.ev_charger_formula(None).unwrap(), "0.0");
    assert_eq!(graph.pv_formula(Some(BTreeSet::new())).unwrap(), "0.0");
}

fn consumption_nodes_and_edges() -> (Vec<TestComponent>, Vec<TestConnection>) {
    let components = vec![
        TestComponent::new(1, ComponentCategory::Grid),
        TestComponent::new(2, ComponentCategory::Meter),
        TestComponent::new(3, ComponentCategory::Meter),
        TestComponent::new(4, ComponentCategory::Inverter(InverterType::Battery)),
        TestComponent::new(5, ComponentCategory::Battery(BatteryType::NaIon)),
        TestComponent::new(6, ComponentCategory::Meter),
        TestComponent::new(7, ComponentCategory::Inverter(InverterType::Battery)),
        TestComponent::new(8, ComponentCategory::Battery(BatteryType::Unspecified)),
        TestComponent::new(9, ComponentCategory::Meter),
        TestComponent::new(10, ComponentCategory::Inverter(InverterType::Solar)),
        TestComponent::new(11, ComponentCategory::Inverter(InverterType::Solar)),
        TestComponent::new(12, ComponentCategory::Meter),
        TestComponent::new(13, ComponentCategory::Chp),
        TestComponent::new(14, ComponentCategory::Meter),
        TestComponent::new(15, ComponentCategory::Chp),
        TestComponent::new(16, ComponentCategory::Inverter(InverterType::Solar)),
        TestComponent::new(17, ComponentCategory::Inverter(InverterType::Battery)),
        TestComponent::new(18, ComponentCategory::Battery(BatteryType::LiIon)),
    ];
    let connections = vec![
        TestConnection(1, 2),
        TestConnection(2, 3),
        TestConnection(3, 4),
        TestConnection(4, 5),
        TestConnection(2, 6),
        TestConnection(6, 7),
        TestConnection(7, 8),
        TestConnection(2, 9),
        TestConnection(9, 10),
        TestConnection(9, 11),
        TestConnection(2, 12),
        TestConnection(12, 13),
        TestConnection(2, 14),
        TestConnection(14, 15),
        TestConnection(14, 16),
        TestConnection(14, 17),
        TestConnection(17, 18),
    ];
    (components, connections)
}

#[test]
fn test_consumption_formula() {
    let (components, connections) = consumption_nodes_and_edges();
    let cg = ComponentGraph::try_new(components, connections, ComponentGraphConfig::default()).unwrap();
    let builder = FormulaBuilder::new(&cg);
    let formula = builder.consumption_formula().unwrap();
    assert_eq!(
        formula,
        "MAX(0.0, #2 - COALESCE(#3, #4) - COALESCE(#6, #7) - COALESCE(#9, #11 + #10) - COALESCE(#12, #13) - COALESCE(#14, #17 + #16 + #15)) + COALESCE(MAX(0.0, #3 - #4), 0.0) + COALESCE(MAX(0.0, #6 - #7), 0.0) + COALESCE(MAX(0.0, #9 - #10 - #11), 0.0) + COALESCE(MAX(0.0, #12 - #13), 0.0) + COALESCE(MAX(0.0, #14 - #15 - #16 - #17), 0.0)"
    );
}

#[test]
fn test_consumption_formula_with_grid_meter() -> Result<(), Error> {
    let mut builder = ComponentGraphBuilder::new();
    let grid = builder.grid();

    let grid_meter = builder.meter();
    builder.connect(grid, grid_meter);

    let graph = builder.build(None)?;
    let formula = FormulaBuilder::new(&graph).consumption_formula()?;
    assert_eq!(formula, "MAX(0.0, #1)");

    let meter_bat_chain = builder.meter_bat_chain(1, 1);
    builder.connect(grid_meter, meter_bat_chain);

    let graph = builder.build(None)?;
    let formula = FormulaBuilder::new(&graph).consumption_formula()?;
    assert_eq!(
        formula,
        "MAX(0.0, #1 - COALESCE(#2, #3)) + COALESCE(MAX(0.0, #2 - #3), 0.0)"
    );

    let meter_pv_chain = builder.meter_pv_chain(2);
    builder.connect(grid_meter, meter_pv_chain);

    let graph = builder.build(None)?;
    let formula = FormulaBuilder::new(&graph).consumption_formula()?;
    assert_eq!(
        formula,
        "MAX(0.0, #1 - COALESCE(#2, #3) - COALESCE(#5, #7 + #6)) + COALESCE(MAX(0.0, #2 - #3), 0.0) + COALESCE(MAX(0.0, #5 - #6 - #7), 0.0)"
    );

    let solar_inverter = builder.solar_inverter();
    let chp = builder.chp();
    let ev_charger = builder.ev_charger();
    let meter = builder.meter();
    builder.connect(meter, solar_inverter);
    builder.connect(meter, chp);
    builder.connect(meter, ev_charger);
    builder.connect(grid_meter, meter);

    let graph = builder.build(None)?;
    let formula = FormulaBuilder::new(&graph).consumption_formula()?;
    assert_eq!(
        formula,
        "MAX(0.0, #1 - COALESCE(#2, #3) - COALESCE(#5, #7 + #6) - COALESCE(#11, #10 + #9 + #8)) + COALESCE(MAX(0.0, #2 - #3), 0.0) + COALESCE(MAX(0.0, #5 - #6 - #7), 0.0) + COALESCE(MAX(0.0, #11 - #8 - #9 - #10), 0.0)"
    );

    Ok(())
}

#[test]
fn test_consumption_formula_without_grid_meter() -> Result<(), Error> {
    let mut builder = ComponentGraphBuilder::new();
    let grid = builder.grid();

    let meter_bat_chain = builder.meter_bat_chain(1, 2);
    builder.connect(grid, meter_bat_chain);

    let graph = builder.build(None)?;
    let formula = graph.consumer_formula()?;
    assert_eq!(formula, "COALESCE(MAX(0.0, #1 - #2), 0.0)");

    Ok(())
}
